//! Temporal encoder: pure conversions from textual times and calendar
//! dates to the integer encodings of the columnar format.
//!
//! A time text `HH:MM:SS[.fraction]` becomes a time of day with nanosecond
//! precision; dates become days since 1970-01-01; timestamps become
//! microseconds since the epoch, truncated (not rounded) from nanoseconds.

use crate::decimal::{digits_value, is_ascii_digit, lemma_digits_value_non_negative};
use vstd::arithmetic::div_mod::{
    lemma_div_is_ordered, lemma_fundamental_div_mod, lemma_fundamental_div_mod_converse,
    lemma_mod_division_less_than_divisor,
};
use vstd::prelude::*;

verus! {

/// Ten to the `n`: the weight of a decimal digit position.
pub open spec fn pow10(n: nat) -> int
    decreases n,
{
    if n == 0 {
        1
    } else {
        10 * pow10((n - 1) as nat)
    }
}

/// A time of day, split to nanosecond precision.
#[derive(Clone, Copy, Debug, PartialEq, Eq, Structural)]
pub struct TimeOfDay {
    pub hour: u8,
    pub minute: u8,
    pub second: u8,
    pub nano: u32,
}

impl TimeOfDay {
    /// A valid wall-clock reading.
    pub open spec fn wf(self) -> bool {
        self.hour <= 23 && self.minute <= 59 && self.second <= 59 && self.nano < 1_000_000_000
    }
}

/// Nanoseconds since midnight of a time of day.
pub open spec fn nanos_of_day(t: TimeOfDay) -> int {
    ((t.hour * 3600 + t.minute * 60 + t.second) as int) * 1_000_000_000 + t.nano
}

/// The numeric value of the two digits at `off` and `off + 1`.
pub open spec fn two_digit_value(s: Seq<u8>, off: int) -> int {
    (s[off] - 48) * 10 + (s[off + 1] - 48)
}

/// The fraction digits of a time text: whatever follows `HH:MM:SS.`.
pub open spec fn frac_digits(s: Seq<u8>) -> Seq<u8> {
    if s.len() <= 9 {
        Seq::empty()
    } else {
        s.skip(9)
    }
}

/// Nanoseconds denoted by a run of fraction digits: the first nine digits,
/// right-padded with zeros; digits beyond the ninth are truncated away.
pub open spec fn nanos_of_fraction(fr: Seq<u8>) -> int {
    if fr.len() <= 9 {
        digits_value(fr) * pow10((9 - fr.len()) as nat)
    } else {
        digits_value(fr.take(9))
    }
}

/// A well-formed time text: `HH:MM:SS`, optionally `.` and fraction digits,
/// with fields that denote a real wall-clock time.
pub open spec fn time_text_wf(s: Seq<u8>) -> bool {
    &&& s.len() >= 8
    &&& is_ascii_digit(s[0])
    &&& is_ascii_digit(s[1])
    &&& s[2] == 58
    &&& is_ascii_digit(s[3])
    &&& is_ascii_digit(s[4])
    &&& s[5] == 58
    &&& is_ascii_digit(s[6])
    &&& is_ascii_digit(s[7])
    &&& (s.len() > 8 ==> s[8] == 46)
    &&& (forall|j: int| 9 <= j < s.len() ==> is_ascii_digit(#[trigger] s[j]))
    &&& two_digit_value(s, 0) <= 23
    &&& two_digit_value(s, 3) <= 59
    &&& two_digit_value(s, 6) <= 59
}

/// A digit run of at most nine digits stays below ten to the ninth.
pub proof fn lemma_digits_value_upper(s: Seq<u8>)
    requires
        forall|i: int| 0 <= i < s.len() ==> is_ascii_digit(#[trigger] s[i]),
    ensures
        digits_value(s) < pow10(s.len()),
    decreases s.len(),
{
    if s.len() == 0 {
    } else {
        lemma_digits_value_upper(s.drop_last());
        let d = digits_value(s.drop_last());
        assert(d * 10 <= (pow10((s.len() - 1) as nat) - 1) * 10) by (nonlinear_arith)
            requires
                d <= pow10((s.len() - 1) as nat) - 1,
        ;
    }
}

/// Ten to the ninth and below, as plain numbers.
pub proof fn lemma_pow10_constants()
    ensures
        pow10(0) == 1,
        pow10(1) == 10,
        pow10(2) == 100,
        pow10(3) == 1000,
        pow10(4) == 10000,
        pow10(5) == 100000,
        pow10(6) == 1000000,
        pow10(7) == 10000000,
        pow10(8) == 100000000,
        pow10(9) == 1000000000,
{
    assert(pow10(0) == 1);
    assert(pow10(1) == 10);
    assert(pow10(2) == 100);
    assert(pow10(3) == 1000);
    assert(pow10(4) == 10000);
    assert(pow10(5) == 100000);
    assert(pow10(6) == 1000000);
    assert(pow10(7) == 10000000);
    assert(pow10(8) == 100000000);
    assert(pow10(9) == 1000000000);
}

/// Ten raised to anything is positive.
pub proof fn lemma_pow10_positive(n: nat)
    ensures
        pow10(n) > 0,
    decreases n,
{
    if n > 0 {
        lemma_pow10_positive((n - 1) as nat);
    }
}

/// Reads `10^e` for `e <= 9`.
fn pow10_u32(e: usize) -> (r: u32)
    requires
        e <= 9,
    ensures
        r == pow10(e as nat),
{
    proof {
        lemma_pow10_constants();
    }
    let mut r: u32 = 1;
    let mut k: usize = 0;
    while k < e
        invariant
            k <= e <= 9,
            r == pow10(k as nat),
            r <= 1_000_000_000,
        decreases e - k,
    {
        proof {
            lemma_pow10_constants();
            lemma_pow10_positive(k as nat);
            assert(pow10((k + 1) as nat) == 10 * pow10(k as nat));
            lemma_pow10_monotone(k as nat, 9);
        }
        r = r * 10;
        k = k + 1;
    }
    r
}

/// Ten to a smaller power is no larger.
pub proof fn lemma_pow10_monotone(a: nat, b: nat)
    requires
        a <= b,
    ensures
        pow10(a) <= pow10(b),
    decreases b,
{
    if a < b {
        lemma_pow10_monotone(a, (b - 1) as nat);
        lemma_pow10_positive((b - 1) as nat);
    }
}

/// Reads the two-digit field at `off`.
fn two_digits(text: &Vec<u8>, off: usize) -> (r: u8)
    requires
        off + 2 <= text.len(),
        is_ascii_digit(text@[off as int]),
        is_ascii_digit(text@[off as int + 1]),
    ensures
        r == two_digit_value(text@, off as int),
        r <= 99,
{
    let hi: u8 = text[off];
    let lo: u8 = text[off + 1];
    proof {
        assert(hi == text@[off as int]);
        assert(lo == text@[off as int + 1]);
        assert(48 <= hi <= 57);
        assert(48 <= lo <= 57);
    }
    (hi - 48) * 10 + (lo - 48)
}

/// Parses a time text `HH:MM:SS[.fraction]` into a time of day; fewer than
/// nine fraction digits are padded with zeros, digits beyond the ninth are
/// cut off. Malformed or out-of-range fields are a decode failure.
pub fn parse_time(text: &Vec<u8>) -> (r: Result<TimeOfDay, crate::EncodeError>)
    ensures
        r is Ok <==> time_text_wf(text@),
        (match r {
            Ok(t) => t.wf() && t.hour == two_digit_value(text@, 0) && t.minute == two_digit_value(
                text@,
                3,
            ) && t.second == two_digit_value(text@, 6) && t.nano == nanos_of_fraction(
                frac_digits(text@),
            ),
            Err(e) => e == crate::EncodeError::MalformedTime,
        }),
{
    if text.len() < 8 {
        return Err(crate::EncodeError::MalformedTime);
    }
    let c2: u8 = text[2];
    let c5: u8 = text[5];
    if c2 != 58 || c5 != 58 {
        return Err(crate::EncodeError::MalformedTime);
    }
    let mut k: usize = 0;
    while k < 8
        invariant
            k <= 8,
            text@.len() >= 8,
            forall|j: int| 0 <= j < k ==> (j == 2 || j == 5 || is_ascii_digit(#[trigger] text@[j])),
        decreases 8 - k,
    {
        if k != 2 && k != 5 {
            let c: u8 = text[k];
            if c < 48 || c > 57 {
                return Err(crate::EncodeError::MalformedTime);
            }
        }
        k = k + 1;
    }
    if text.len() > 8 {
        let c8: u8 = text[8];
        if c8 != 46 {
            return Err(crate::EncodeError::MalformedTime);
        }
    }
    let ghost fr = frac_digits(text@);
    let mut nano: u32 = 0;
    let mut taken: usize = 0;
    let mut j: usize = 9;
    proof {
        if text@.len() > 9 {
            assert(fr == text@.skip(9));
        }
        assert(fr.take(0) =~= Seq::<u8>::empty());
    }
    while j < text.len()
        invariant
            9 <= j,
            j <= text@.len() || j == 9,
            text@.len() > 9 ==> fr == text@.skip(9),
            text@.len() <= 9 ==> fr == Seq::<u8>::empty(),
            taken <= 9,
            j <= 9 + fr.len(),
            taken == (if j - 9 <= 9 {
                j - 9
            } else {
                9
            }),
            forall|i: int| 0 <= i < j - 9 ==> is_ascii_digit(#[trigger] fr[i]),
            nano == digits_value(fr.take(taken as int)),
            nano < 1_000_000_000,
        decreases text@.len() - j,
    {
        let c: u8 = text[j];
        if c < 48 || c > 57 {
            return Err(crate::EncodeError::MalformedTime);
        }
        proof {
            assert(fr[j - 9] == text@[j as int]);
        }
        if taken < 9 {
            let ghost pre = fr.take(taken as int);
            let ghost pre1 = fr.take(taken + 1);
            proof {
                assert(pre1.drop_last() =~= pre);
                assert(pre1.last() == fr[taken as int]);
                lemma_digits_value_non_negative(pre);
                lemma_digits_value_upper(pre1);
                lemma_pow10_constants();
                lemma_pow10_monotone(pre1.len() as nat, 9);
            }
            nano = nano * 10 + (c - 48) as u32;
            taken = taken + 1;
        }
        j = j + 1;
    }
    proof {
        if text@.len() > 9 {
            assert forall|jj: int| 9 <= jj < text@.len() implies is_ascii_digit(
                #[trigger] text@[jj],
            ) by {
                assert(text@[jj] == fr[jj - 9]);
            }
        }
    }
    let hour: u8 = two_digits(text, 0);
    let minute: u8 = two_digits(text, 3);
    let second: u8 = two_digits(text, 6);
    if hour > 23 || minute > 59 || second > 59 {
        return Err(crate::EncodeError::MalformedTime);
    }
    if taken < 9 {
        proof {
            lemma_pow10_constants();
            lemma_digits_value_non_negative(fr.take(taken as int));
            lemma_digits_value_upper(fr.take(taken as int));
            lemma_pow10_monotone(taken as nat, 9);
            assert(pow10((9 - taken) as nat) <= 1_000_000_000) by {
                lemma_pow10_monotone((9 - taken) as nat, 9);
            }
            assert(fr.take(fr.len() as int) =~= fr);
            assert(digits_value(fr.take(taken as int)) * pow10((9 - taken) as nat) < pow10(
                taken as nat,
            ) * pow10((9 - taken) as nat)) by (nonlinear_arith)
                requires
                    digits_value(fr.take(taken as int)) < pow10(taken as nat),
                    pow10((9 - taken) as nat) > 0,
            ;
            assert(pow10(taken as nat) * pow10((9 - taken) as nat) == pow10(9)) by {
                lemma_pow10_mul(taken as nat, (9 - taken) as nat);
            }
        }
        let scale: u32 = pow10_u32(9 - taken);
        nano = nano * scale;
        proof {
            assert(fr.len() == taken);
            assert(nano == nanos_of_fraction(fr));
        }
    } else {
        proof {
            assert(fr.len() >= 9);
            if fr.len() > 9 {
                assert(nano == digits_value(fr.take(9)));
            } else {
                assert(fr.take(9) =~= fr);
                lemma_pow10_constants();
            }
        }
    }
    Ok(TimeOfDay { hour, minute, second, nano })
}

/// Powers of ten multiply by adding exponents.
pub proof fn lemma_pow10_mul(a: nat, b: nat)
    ensures
        pow10(a) * pow10(b) == pow10((a + b) as nat),
    decreases a,
{
    if a == 0 {
    } else {
        lemma_pow10_mul((a - 1) as nat, b);
        assert(pow10(a) * pow10(b) == 10 * (pow10((a - 1) as nat) * pow10(b))) by (nonlinear_arith)
            requires
                pow10(a) == 10 * pow10((a - 1) as nat),
        ;
    }
}

/// Milliseconds since midnight: the time of day at millisecond resolution,
/// truncated from nanoseconds.
pub fn time_to_millis_since_midnight(t: &TimeOfDay) -> (r: i32)
    requires
        t.wf(),
    ensures
        r == nanos_of_day(*t) / 1_000_000,
{
    let secs: u32 = t.hour as u32 * 3600 + t.minute as u32 * 60 + t.second as u32;
    let r: u32 = secs * 1000 + t.nano / 1_000_000;
    proof {
        lemma_fundamental_div_mod(t.nano as int, 1_000_000);
        lemma_mod_division_less_than_divisor(t.nano as int, 1_000_000);
        let fq = t.nano as int / 1_000_000;
        let frr = t.nano as int % 1_000_000;
        assert(nanos_of_day(*t) == (secs * 1000 + fq) * 1_000_000 + frr);
        lemma_fundamental_div_mod_converse(nanos_of_day(*t), 1_000_000, secs * 1000 + fq, frr);
    }
    r as i32
}

/// Microseconds since midnight: the time of day at microsecond resolution,
/// truncated from nanoseconds.
pub fn time_to_micros_since_midnight(t: &TimeOfDay) -> (r: i64)
    requires
        t.wf(),
    ensures
        r == nanos_of_day(*t) / 1000,
{
    let secs: u64 = t.hour as u64 * 3600 + t.minute as u64 * 60 + t.second as u64;
    let r: u64 = secs * 1_000_000 + (t.nano / 1000) as u64;
    proof {
        lemma_fundamental_div_mod(t.nano as int, 1000);
        lemma_mod_division_less_than_divisor(t.nano as int, 1000);
        let fq = t.nano as int / 1000;
        let frr = t.nano as int % 1000;
        assert(nanos_of_day(*t) == (secs * 1_000_000 + fq) * 1000 + frr);
        lemma_fundamental_div_mod_converse(nanos_of_day(*t), 1000, secs * 1_000_000 + fq, frr);
    }
    r as i64
}

/// A calendar date as the relational source hands it over.
#[derive(Clone, Copy, Debug, PartialEq, Eq, Structural)]
pub struct Date {
    pub year: i16,
    pub month: u16,
    pub day: u16,
}

/// A point in time: calendar date, wall clock and nanosecond fraction.
#[derive(Clone, Copy, Debug, PartialEq, Eq, Structural)]
pub struct Timestamp {
    pub year: i16,
    pub month: u16,
    pub day: u16,
    pub hour: u16,
    pub minute: u16,
    pub second: u16,
    pub fraction: u32,
}

/// The proleptic Gregorian leap-year rule.
pub open spec fn is_leap_year(y: int) -> bool {
    (y % 4 == 0 && y % 100 != 0) || y % 400 == 0
}

/// Days in a month of the proleptic Gregorian calendar.
pub open spec fn spec_days_in_month(y: int, m: int) -> int {
    if m == 2 {
        if is_leap_year(y) {
            29
        } else {
            28
        }
    } else if m == 4 || m == 6 || m == 9 || m == 11 {
        30
    } else {
        31
    }
}

/// Days in a calendar year.
pub open spec fn spec_days_in_year(y: int) -> int {
    if is_leap_year(y) {
        366
    } else {
        365
    }
}

/// Days from 1970-01-01 to the first day of year `y`; negative before 1970.
pub open spec fn days_before_year(y: int) -> int
    decreases
            (if y >= 1970 {
                y - 1970
            } else {
                1970 - y
            }),
{
    if y == 1970 {
        0
    } else if y > 1970 {
        days_before_year(y - 1) + spec_days_in_year(y - 1)
    } else {
        days_before_year(y + 1) - spec_days_in_year(y)
    }
}

/// Days from the first of January to the first day of month `m` in year `y`.
pub open spec fn days_before_month(y: int, m: int) -> int
    decreases m,
{
    if m <= 1 {
        0
    } else {
        days_before_month(y, m - 1) + spec_days_in_month(y, m - 1)
    }
}

/// Days between 1970-01-01 and a calendar date; negative before the epoch.
pub open spec fn spec_days_since_epoch(y: int, m: int, d: int) -> int {
    days_before_year(y) + days_before_month(y, m) + (d - 1)
}

/// A real calendar date.
pub open spec fn date_wf(y: int, m: int, d: int) -> bool {
    1 <= m <= 12 && 1 <= d <= spec_days_in_month(y, m)
}

impl Date {
    /// A real calendar date.
    pub open spec fn wf(self) -> bool {
        date_wf(self.year as int, self.month as int, self.day as int)
    }
}

impl Timestamp {
    /// A real calendar date with a valid wall clock and sub-second fraction.
    pub open spec fn wf(self) -> bool {
        &&& date_wf(self.year as int, self.month as int, self.day as int)
        &&& self.hour <= 23
        &&& self.minute <= 59
        &&& self.second <= 59
        &&& self.fraction < 1_000_000_000
    }
}

/// Whether `y` is a leap year.
fn leap_year(y: i32) -> (r: bool)
    ensures
        r == is_leap_year(y as int),
{
    let m4 = match y.checked_rem_euclid(4) {
        Some(v) => v,
        None => {
            proof {
                assert(false);
            }
            0
        },
    };
    let m100 = match y.checked_rem_euclid(100) {
        Some(v) => v,
        None => {
            proof {
                assert(false);
            }
            0
        },
    };
    let m400 = match y.checked_rem_euclid(400) {
        Some(v) => v,
        None => {
            proof {
                assert(false);
            }
            0
        },
    };
    (m4 == 0 && m100 != 0) || m400 == 0
}

/// Days in a month.
pub fn days_in_month(y: i32, m: u32) -> (r: u32)
    requires
        1 <= m <= 12,
    ensures
        r == spec_days_in_month(y as int, m as int),
        28 <= r <= 31,
{
    if m == 2 {
        if leap_year(y) {
            29
        } else {
            28
        }
    } else if m == 4 || m == 6 || m == 9 || m == 11 {
        30
    } else {
        31
    }
}

/// Days in a year.
fn days_in_year(y: i32) -> (r: u32)
    ensures
        r == spec_days_in_year(y as int),
        365 <= r <= 366,
{
    if leap_year(y) {
        366
    } else {
        365
    }
}

/// Days between the epoch 1970-01-01 and a calendar date, negative for
/// dates before the epoch.
pub fn date_to_days_since_epoch(date: &Date) -> (r: i32)
    requires
        date.wf(),
    ensures
        r == spec_days_since_epoch(date.year as int, date.month as int, date.day as int),
        -13_000_000 <= r <= 13_000_000,
{
    let y: i32 = date.year as i32;
    let mut acc: i32 = 0;
    let mut cur: i32 = 1970;
    if y >= 1970 {
        while cur < y
            invariant
                1970 <= cur <= y || (cur == 1970 && y <= 1970),
                y <= 32767,
                acc == days_before_year(cur as int),
                0 <= acc <= 366 * (cur - 1970),
            decreases y - cur,
        {
            acc = acc + days_in_year(cur) as i32;
            cur = cur + 1;
        }
    } else {
        while cur > y
            invariant
                y <= cur <= 1970,
                y >= -32768,
                acc == days_before_year(cur as int),
                -(366 * (1970 - cur)) <= acc <= 0,
            decreases cur - y,
        {
            acc = acc - days_in_year(cur - 1) as i32;
            cur = cur - 1;
            proof {
                assert(days_before_year(cur as int) == days_before_year(cur + 1)
                    - spec_days_in_year(cur as int));
            }
        }
    }
    let mut m: u32 = 1;
    let mut md: i32 = 0;
    while m < date.month as u32
        invariant
            1 <= m <= 12,
            date.wf(),
            y == date.year as i32,
            m <= date.month as u32,
            md == days_before_month(date.year as int, m as int),
            0 <= md <= 31 * (m - 1),
        decreases date.month as u32 - m,
    {
        md = md + days_in_month(y, m) as i32;
        m = m + 1;
        proof {
            assert(days_before_month(date.year as int, m as int) == days_before_month(
                date.year as int,
                m - 1,
            ) + spec_days_in_month(date.year as int, m - 1));
        }
    }
    acc + md + (date.day as i32 - 1)
}

/// Truncating division: rounds toward zero, as the nanosecond-to-
/// microsecond conversion of the columnar format demands.
pub open spec fn trunc_div(a: int, b: int) -> int {
    if a >= 0 {
        a / b
    } else {
        -((-a) / b)
    }
}

/// Nanoseconds between the epoch and a timestamp.
pub open spec fn spec_timestamp_nanos(ts: Timestamp) -> int {
    (spec_days_since_epoch(ts.year as int, ts.month as int, ts.day as int) * 86400 + ts.hour * 3600
        + ts.minute * 60 + ts.second) * 1_000_000_000 + ts.fraction
}

/// Microseconds between the epoch and a timestamp: nanoseconds divided by
/// one thousand, truncated toward zero.
pub fn timestamp_to_micros_since_epoch(ts: &Timestamp) -> (r: i64)
    requires
        ts.wf(),
    ensures
        r == trunc_div(spec_timestamp_nanos(*ts), 1000),
{
    let date = Date { year: ts.year, month: ts.month, day: ts.day };
    let days: i64 = date_to_days_since_epoch(&date) as i64;
    let secs: i64 = days * 86400 + ts.hour as i64 * 3600 + ts.minute as i64 * 60 + ts.second as i64;
    let fq: i64 = (ts.fraction / 1000) as i64;
    let fr: u32 = ts.fraction % 1000;
    let base: i64 = secs * 1_000_000 + fq;
    let ghost total = spec_timestamp_nanos(*ts);
    proof {
        lemma_fundamental_div_mod(ts.fraction as int, 1000);
        lemma_mod_division_less_than_divisor(ts.fraction as int, 1000);
        assert(total == (secs * 1_000_000 + fq) * 1000 + fr);
    }
    if secs >= 0 {
        proof {
            lemma_fundamental_div_mod_converse(total, 1000, secs * 1_000_000 + fq, fr as int);
            assert(total >= 0) by (nonlinear_arith)
                requires
                    total == (secs * 1_000_000 + fq) * 1000 + fr,
                    secs >= 0,
                    fq >= 0,
                    fr >= 0,
            ;
        }
        base
    } else {
        proof {
            assert(total < 0) by (nonlinear_arith)
                requires
                    total == (secs * 1_000_000 + fq) * 1000 + fr,
                    secs <= -1,
                    0 <= fq < 1_000_000,
                    0 <= fr < 1000,
            ;
        }
        if fr == 0 {
            proof {
                assert(-total == -(secs * 1_000_000 + fq) * 1000) by (nonlinear_arith)
                    requires
                        total == (secs * 1_000_000 + fq) * 1000,
                ;
                lemma_fundamental_div_mod_converse(-total, 1000, -(secs * 1_000_000 + fq), 0);
            }
            base
        } else {
            proof {
                assert(-total == (-(secs * 1_000_000 + fq) - 1) * 1000 + (1000 - fr))
                    by (nonlinear_arith)
                    requires
                        total == (secs * 1_000_000 + fq) * 1000 + fr,
                ;
                lemma_fundamental_div_mod_converse(
                    -total,
                    1000,
                    -(secs * 1_000_000 + fq) - 1,
                    1000 - fr,
                );
            }
            base + 1
        }
    }
}

/// Among fractions written with the same number of digits, a larger
/// fractional value never denotes fewer nanoseconds.
pub proof fn lemma_fraction_monotonic(fr1: Seq<u8>, fr2: Seq<u8>)
    requires
        fr1.len() == fr2.len(),
        fr1.len() <= 9,
        digits_value(fr1) <= digits_value(fr2),
    ensures
        nanos_of_fraction(fr1) <= nanos_of_fraction(fr2),
{
    let p = pow10((9 - fr1.len()) as nat);
    lemma_pow10_positive((9 - fr1.len()) as nat);
    assert(digits_value(fr1) * p <= digits_value(fr2) * p) by (nonlinear_arith)
        requires
            digits_value(fr1) <= digits_value(fr2),
            p > 0,
    ;
}

/// Later fractions never map to earlier milliseconds or microseconds: both
/// conversions are monotonic in the fractional part of the time of day.
pub proof fn lemma_time_conversion_monotonic(t1: TimeOfDay, t2: TimeOfDay)
    requires
        t1.wf(),
        t2.wf(),
        t1.hour == t2.hour,
        t1.minute == t2.minute,
        t1.second == t2.second,
        t1.nano <= t2.nano,
    ensures
        nanos_of_day(t1) <= nanos_of_day(t2),
        nanos_of_day(t1) / 1_000_000 <= nanos_of_day(t2) / 1_000_000,
        nanos_of_day(t1) / 1000 <= nanos_of_day(t2) / 1000,
{
    lemma_div_is_ordered(nanos_of_day(t1), nanos_of_day(t2), 1_000_000);
    lemma_div_is_ordered(nanos_of_day(t1), nanos_of_day(t2), 1000);
}

} // verus!
