use vstd::prelude::*;
use crate::ascii::{COLON, DASH, DOT, NINE, PLUS, UPPER_T, UPPER_Z, ZERO};

verus! {

/// Nanoseconds in one second.
pub const NANOS_PER_SEC: i64 = 1_000_000_000;

/// Seconds in one day.
pub const SECS_PER_DAY: i64 = 86400;

/// Whether `year` is a leap year of the proleptic Gregorian calendar.
pub open spec fn leap(year: int) -> bool {
    year % 4 == 0 && (year % 100 != 0 || year % 400 == 0)
}

/// Number of days in `year`.
pub open spec fn year_len(year: int) -> int {
    if leap(year) { 366 } else { 365 }
}

/// Days from 1970-01-01 to the first day of `year`; negative for years before 1970.
pub open spec fn days_before_year(year: int) -> int
    decreases (if year >= 1970 { year - 1970 } else { 1970 - year }),
{
    if year == 1970 {
        0
    } else if year > 1970 {
        days_before_year(year - 1) + year_len(year - 1)
    } else {
        days_before_year(year + 1) - year_len(year)
    }
}

/// Days of month `m` (1 to 12) in a common year; zero elsewhere.
pub open spec fn common_month_len(m: int) -> int {
    if m == 1 || m == 3 || m == 5 || m == 7 || m == 8 || m == 10 || m == 12 {
        31
    } else if m == 4 || m == 6 || m == 9 || m == 11 {
        30
    } else if m == 2 {
        28
    } else {
        0
    }
}

/// Days of the months `1 .. month - 1` of `year`, February counted as 29 days in leap years.
pub open spec fn days_before_month(year: int, month: int) -> int
    decreases month,
{
    if month <= 1 {
        0
    } else {
        days_before_month(year, month - 1) + common_month_len(month - 1) + (if month - 1 == 2
            && leap(year) {
            1int
        } else {
            0int
        })
    }
}

/// Days since the epoch of the given calendar date (the day field counts from 1).
pub open spec fn epoch_days(year: int, month: int, day: int) -> int {
    days_before_year(year) + days_before_month(year, month) + day - 1
}

/// Seconds since the epoch of the given UTC date and time.
pub open spec fn epoch_seconds(
    year: int,
    month: int,
    day: int,
    hour: int,
    min: int,
    sec: int,
) -> int {
    epoch_days(year, month, day) * 86400 + hour * 3600 + min * 60 + sec
}

/// Nanoseconds since the Unix epoch of the given UTC date and time.
pub open spec fn epoch_nanos(
    year: int,
    month: int,
    day: int,
    hour: int,
    min: int,
    sec: int,
    nsec: int,
) -> int {
    epoch_seconds(year, month, day, hour, min, sec) * 1_000_000_000 + nsec
}

proof fn lemma_days_before_year_step(y: int)
    ensures
        days_before_year(y + 1) == days_before_year(y) + year_len(y),
{
}

proof fn lemma_days_before_month_nonneg(year: int, a: int)
    ensures
        0 <= days_before_month(year, a),
    decreases a,
{
    if a > 1 {
        lemma_days_before_month_nonneg(year, a - 1);
    }
}

/// Days of month `m` (1 to 12) of `year`.
pub open spec fn month_len(year: int, m: int) -> int {
    common_month_len(m) + if m == 2 && leap(year) { 1int } else { 0int }
}

/// Whether `year`-`month`-`day` is a date of the Gregorian calendar.
pub open spec fn valid_date(year: int, month: int, day: int) -> bool {
    1 <= month <= 12 && 1 <= day <= month_len(year, month)
}

/// The calendar day after `year`-`month`-`day`.
pub open spec fn next_day(year: int, month: int, day: int) -> (int, int, int) {
    if day < month_len(year, month) {
        (year, month, day + 1)
    } else if month < 12 {
        (year, month + 1, 1)
    } else {
        (year + 1, 1, 1)
    }
}

/// The same time of day on the next calendar day is exactly 86 400 seconds later, across
/// month ends, February 29 and year ends alike.
pub proof fn next_day_is_one_day_later(
    year: int,
    month: int,
    day: int,
    hour: int,
    min: int,
    sec: int,
    nsec: int,
)
    requires
        valid_date(year, month, day),
    ensures
        ({
            let (y2, m2, d2) = next_day(year, month, day);
            epoch_nanos(y2, m2, d2, hour, min, sec, nsec) - epoch_nanos(
                year,
                month,
                day,
                hour,
                min,
                sec,
                nsec,
            ) == 86_400_000_000_000
        }),
{
    let (y2, m2, d2) = next_day(year, month, day);
    if day < month_len(year, month) {
    } else if month < 12 {
        assert(days_before_month(year, month + 1) == days_before_month(year, month) + month_len(
            year,
            month,
        ));
    } else {
        lemma_days_before_year_step(year);
        reveal_with_fuel(days_before_month, 13);
        assert(days_before_month(year, 12) == 334 + if leap(year) { 1int } else { 0int });
    }
    assert(epoch_days(y2, m2, d2) == epoch_days(year, month, day) + 1);
}

/// Gregorian leap-year rule.
pub fn is_leap_year(year: i32) -> (r: bool)
    ensures
        r == leap(year as int),
{
    year % 4 == 0 && (year % 100 != 0 || year % 400 == 0)
}

/// Unix timestamp in nanoseconds of a UTC date and time.
///
/// Years before 1970 give negative timestamps. A month of 0 or 1 adds no month days, and a
/// month of 13 adds the whole year.
pub fn utc_to_nanoseconds(
    year: i32,
    month: u32,
    day: u32,
    hour: u32,
    min: u32,
    sec: u32,
    nsec: u32,
) -> (r: i64)
    requires
        month <= 13,
        i64::MIN <= epoch_seconds(year as int, month as int, day as int, hour as int, min as int, sec as int) * 1_000_000_000,
        epoch_nanos(year as int, month as int, day as int, hour as int, min as int, sec as int, nsec as int) <= i64::MAX,
    ensures
        r == epoch_nanos(year as int, month as int, day as int, hour as int, min as int, sec as int, nsec as int),
{
    let mut days: i64 = 0;
    if year >= 1970 {
        let mut y: i32 = 1970;
        while y < year
            invariant
                1970 <= y <= year,
                days == days_before_year(y as int),
                0 <= days <= 366 * (y - 1970),
            decreases year - y,
        {
            proof {
                lemma_days_before_year_step(y as int);
            }
            days = days + if is_leap_year(y) { 366 } else { 365 };
            y = y + 1;
        }
    } else {
        let mut y: i32 = year;
        while y < 1970
            invariant
                year <= y <= 1970,
                days == days_before_year(year as int) - days_before_year(y as int),
                -366 * (y - year) <= days <= 0,
            decreases 1970 - y,
        {
            proof {
                lemma_days_before_year_step(y as int);
            }
            days = days - if is_leap_year(y) { 366 } else { 365 };
            y = y + 1;
        }
    }
    assert(days == days_before_year(year as int));
    assert(-800_000_000_000 <= days <= 800_000_000_000);
    let month_days: [i64; 13] = [0, 31, 28, 31, 30, 31, 30, 31, 31, 30, 31, 30, 31];
    let leap_year = is_leap_year(year);
    let mut m: u32 = 1;
    while m < month
        invariant
            1 <= m,
            m <= month || month < 1,
            month <= 13,
            month < 1 ==> m == 1,
            month_days@ == seq![0i64, 31, 28, 31, 30, 31, 30, 31, 31, 30, 31, 30, 31],
            leap_year == leap(year as int),
            -800_000_000_000 <= days_before_year(year as int) <= 800_000_000_000,
            days == days_before_year(year as int) + days_before_month(year as int, m as int),
            0 <= days_before_month(year as int, m as int) <= 31 * (m - 1),
        decreases month - m,
    {
        proof {
            lemma_days_before_month_upper(year as int, m + 1);
            lemma_days_before_month_nonneg(year as int, m + 1);
        }
        days = days + month_days[m as usize];
        if m == 2 && leap_year {
            days = days + 1;
        }
        m = m + 1;
    }
    assert(days == days_before_year(year as int) + days_before_month(year as int, month as int));
    days = days + (day as i64) - 1;
    let seconds = days * 86400 + (hour as i64) * 3600 + (min as i64) * 60 + (sec as i64);
    seconds * 1_000_000_000 + (nsec as i64)
}

/// Whether `b` is an ASCII decimal digit.
pub open spec fn is_digit(b: u8) -> bool {
    48 <= b <= 57
}

/// Whether every byte of `s` is an ASCII decimal digit.
pub open spec fn all_digits(s: Seq<u8>) -> bool {
    forall|i: int| 0 <= i < s.len() ==> is_digit(#[trigger] s[i])
}

/// The decimal value of a digit string, most significant digit first.
pub open spec fn digits_value(s: Seq<u8>) -> nat
    decreases s.len(),
{
    if s.len() == 0 {
        0
    } else {
        digits_value(s.drop_last()) * 10 + (s.last() - 48) as nat
    }
}

/// Ten to the power `n`.
pub open spec fn pow10(n: nat) -> nat
    decreases n,
{
    if n == 0 {
        1
    } else {
        10 * pow10((n - 1) as nat)
    }
}

/// The value of the digits `b[start..end]`, or `None` when one of them is not a digit.
pub open spec fn digit_field(b: Seq<u8>, start: int, end: int) -> Option<nat> {
    if all_digits(b.subrange(start, end)) {
        Some(digits_value(b.subrange(start, end)))
    } else {
        None
    }
}

/// End of the run of digits that starts at `i`.
pub open spec fn digit_run_end(b: Seq<u8>, i: int) -> int
    decreases b.len() - i,
{
    if 0 <= i < b.len() && is_digit(b[i]) {
        digit_run_end(b, i + 1)
    } else {
        i
    }
}

/// Whether `b` starts with `YYYY-MM-DDTHH:MM:SS` and is at least 20 bytes long.
pub open spec fn rfc3339_head_ok(b: Seq<u8>) -> bool {
    &&& b.len() >= 20
    &&& digit_field(b, 0, 4) is Some
    &&& b[4] == 45
    &&& digit_field(b, 5, 7) is Some
    &&& b[7] == 45
    &&& digit_field(b, 8, 10) is Some
    &&& b[10] == 84
    &&& digit_field(b, 11, 13) is Some
    &&& b[13] == 58
    &&& digit_field(b, 14, 16) is Some
    &&& b[16] == 58
    &&& digit_field(b, 17, 19) is Some
}

/// Start of the fraction digits: after the `.` at index 19, if there is one.
pub open spec fn frac_start(b: Seq<u8>) -> int {
    if b[19] == 46 { 20 } else { 19 }
}

/// End of the fraction digits, where an offset may follow.
pub open spec fn frac_end(b: Seq<u8>) -> int {
    if b[19] == 46 { digit_run_end(b, 20) } else { 19 }
}

/// The fraction digits (possibly none).
pub open spec fn frac_digits(b: Seq<u8>) -> Seq<u8> {
    b.subrange(frac_start(b), frac_end(b))
}

/// How many fraction digits count: at most nine, the nanoseconds.
pub open spec fn frac_used(b: Seq<u8>) -> int {
    if frac_digits(b).len() < 9 { frac_digits(b).len() as int } else { 9 }
}

/// The fraction as nanoseconds: its first nine digits, padded with zeros when there are fewer;
/// further digits are cut off.
pub open spec fn frac_nanos(b: Seq<u8>) -> int {
    (digits_value(frac_digits(b).subrange(0, frac_used(b))) * pow10((9 - frac_used(b)) as nat)) as int
}

/// Whether a `+HH?MM` or `-HH?MM` offset follows the fraction (at least six bytes remain).
pub open spec fn has_offset(b: Seq<u8>) -> bool {
    let i = frac_end(b);
    &&& i < b.len()
    &&& (b[i] == 43 || b[i] == 45)
    &&& i + 5 < b.len()
}

/// Whether the hour and minute of the offset are both digit pairs.
pub open spec fn offset_digits_ok(b: Seq<u8>) -> bool {
    let i = frac_end(b);
    digit_field(b, i + 1, i + 3) is Some && digit_field(b, i + 4, i + 6) is Some
}

/// The offset east of UTC in seconds (zero when there is none).
pub open spec fn offset_seconds(b: Seq<u8>) -> int {
    let i = frac_end(b);
    if has_offset(b) {
        let s = (digit_field(b, i + 1, i + 3).unwrap() * 3600 + digit_field(b, i + 4, i + 6).unwrap()
            * 60) as int;
        if b[i] == 45 { -s } else { s }
    } else {
        0
    }
}

/// Nanoseconds since the epoch of the date and time in `b`, before the offset is applied.
pub open spec fn rfc3339_local_nanos(b: Seq<u8>) -> int {
    epoch_nanos(
        digit_field(b, 0, 4).unwrap() as int,
        digit_field(b, 5, 7).unwrap() as int,
        digit_field(b, 8, 10).unwrap() as int,
        digit_field(b, 11, 13).unwrap() as int,
        digit_field(b, 14, 16).unwrap() as int,
        digit_field(b, 17, 19).unwrap() as int,
        frac_nanos(b),
    )
}

/// Whether the timestamp in `b` is accepted: a well-formed head with a month of at most 13,
/// and well-formed offset digits where an offset is present. Bytes after the seconds that are
/// neither a fraction nor an offset are ignored.
pub open spec fn rfc3339_accepts(b: Seq<u8>) -> bool {
    &&& rfc3339_head_ok(b)
    &&& digit_field(b, 5, 7).unwrap() <= 13
    &&& has_offset(b) ==> offset_digits_ok(b)
}

/// The Unix timestamp in nanoseconds that `b` denotes, when it is accepted.
pub open spec fn rfc3339_value(b: Seq<u8>) -> Option<int> {
    if rfc3339_accepts(b) {
        Some(rfc3339_local_nanos(b) - offset_seconds(b) * 1_000_000_000)
    } else {
        None
    }
}

/// The inputs on which the timestamp arithmetic stays within `i64`: for an accepted timestamp,
/// the whole seconds counted in nanoseconds, the local time, and the time with the offset
/// applied all fit.
pub open spec fn rfc3339_in_range(b: Seq<u8>) -> bool {
    rfc3339_accepts(b) ==> {
        &&& i64::MIN <= rfc3339_local_nanos(b) - frac_nanos(b)
        &&& rfc3339_local_nanos(b) <= i64::MAX
        &&& i64::MIN <= rfc3339_local_nanos(b) - offset_seconds(b) * 1_000_000_000 <= i64::MAX
    }
}

/// A timestamp written with a `+HH:MM` offset is the same local time written with `Z` less
/// the offset, and one written with `-HH:MM` is that time plus the offset (each as far as the
/// `Z` form is accepted at all).
pub proof fn offset_shifts_timestamp(d: Seq<u8>, h: Seq<u8>, m: Seq<u8>)
    requires
        d.len() == 19,
        h.len() == 2,
        m.len() == 2,
        all_digits(h),
        all_digits(m),
    ensures
        ({
            let off = (digits_value(h) * 3600 + digits_value(m) * 60) * 1_000_000_000;
            let z = rfc3339_value(d + seq![UPPER_Z]);
            &&& rfc3339_value(d + seq![PLUS] + h + seq![COLON] + m) == match z {
                Some(t) => Some(t - off),
                None => None,
            }
            &&& rfc3339_value(d + seq![DASH] + h + seq![COLON] + m) == match z {
                Some(t) => Some(t + off),
                None => None,
            }
        }),
{
    let z = d + seq![UPPER_Z];
    let p = d + seq![PLUS] + h + seq![COLON] + m;
    let n = d + seq![DASH] + h + seq![COLON] + m;
    assert(z.subrange(0, 19) =~= d);
    assert(p.subrange(0, 19) =~= d);
    assert(n.subrange(0, 19) =~= d);
    lemma_same_head(d, z);
    lemma_same_head(d, p);
    lemma_same_head(d, n);
    assert(p.subrange(20, 22) =~= h);
    assert(p.subrange(23, 25) =~= m);
    assert(n.subrange(20, 22) =~= h);
    assert(n.subrange(23, 25) =~= m);
    assert(frac_digits(z) =~= frac_digits(p));
    assert(frac_digits(z) =~= frac_digits(n));
    assert(!has_offset(z));
    assert(has_offset(p) && has_offset(n));
}

/// Two byte strings that agree on their first 19 bytes, both at least 20 bytes long and with
/// no `.` at index 19, have the same date, time and accepted head.
proof fn lemma_same_head(d: Seq<u8>, b: Seq<u8>)
    requires
        d.len() == 19,
        b.len() >= 20,
        b.subrange(0, 19) == d,
    ensures
        b[19] != DOT ==> frac_end(b) == 19,
        rfc3339_head_ok(b) == (digit_field(d, 0, 4) is Some && d[4] == DASH && digit_field(d, 5, 7)
            is Some && d[7] == DASH && digit_field(d, 8, 10) is Some && d[10] == UPPER_T
            && digit_field(d, 11, 13) is Some && d[13] == COLON && digit_field(d, 14, 16) is Some
            && d[16] == COLON && digit_field(d, 17, 19) is Some),
        digit_field(b, 0, 4) == digit_field(d, 0, 4),
        digit_field(b, 5, 7) == digit_field(d, 5, 7),
        digit_field(b, 8, 10) == digit_field(d, 8, 10),
        digit_field(b, 11, 13) == digit_field(d, 11, 13),
        digit_field(b, 14, 16) == digit_field(d, 14, 16),
        digit_field(b, 17, 19) == digit_field(d, 17, 19),
{
    assert forall|i: int, j: int| 0 <= i <= j <= 19 implies #[trigger] b.subrange(i, j)
        == d.subrange(i, j) by {
        assert(b.subrange(i, j) =~= d.subrange(i, j)) by {
            assert forall|k: int| 0 <= k < j - i implies b.subrange(i, j)[k] == d.subrange(i, j)[k] by {
                assert(b[i + k] == b.subrange(0, 19)[i + k]);
            }
        }
    }
    assert(b[4] == b.subrange(0, 19)[4]);
    assert(b[7] == b.subrange(0, 19)[7]);
    assert(b[10] == b.subrange(0, 19)[10]);
    assert(b[13] == b.subrange(0, 19)[13]);
    assert(b[16] == b.subrange(0, 19)[16]);
    assert(b.subrange(0, 4) == d.subrange(0, 4));
    assert(b.subrange(5, 7) == d.subrange(5, 7));
    assert(b.subrange(8, 10) == d.subrange(8, 10));
    assert(b.subrange(11, 13) == d.subrange(11, 13));
    assert(b.subrange(14, 16) == d.subrange(14, 16));
    assert(b.subrange(17, 19) == d.subrange(17, 19));
}

/// The offset law with a fraction between the seconds and the offset: `D.F+HH:MM` is `D.FZ`
/// less the offset and `D.F-HH:MM` is `D.FZ` plus it, for any fraction digits `F` (none
/// included), as far as the `Z` form is accepted at all.
pub proof fn offset_shifts_fractional_timestamp(d: Seq<u8>, f: Seq<u8>, h: Seq<u8>, m: Seq<u8>)
    requires
        d.len() == 19,
        all_digits(f),
        h.len() == 2,
        m.len() == 2,
        all_digits(h),
        all_digits(m),
    ensures
        ({
            let off = (digits_value(h) * 3600 + digits_value(m) * 60) * 1_000_000_000;
            let head = d + seq![DOT] + f;
            let z = rfc3339_value(head + seq![UPPER_Z]);
            &&& rfc3339_value(head + seq![PLUS] + h + seq![COLON] + m) == match z {
                Some(t) => Some(t - off),
                None => None,
            }
            &&& rfc3339_value(head + seq![DASH] + h + seq![COLON] + m) == match z {
                Some(t) => Some(t + off),
                None => None,
            }
        }),
{
    let head = d + seq![DOT] + f;
    let e: int = 20 + f.len() as int;
    let z = head + seq![UPPER_Z];
    let p = head + seq![PLUS] + h + seq![COLON] + m;
    let n = head + seq![DASH] + h + seq![COLON] + m;
    assert(z.subrange(0, 19) =~= d);
    assert(p.subrange(0, 19) =~= d);
    assert(n.subrange(0, 19) =~= d);
    lemma_same_head(d, z);
    lemma_same_head(d, p);
    lemma_same_head(d, n);
    assert(z.subrange(20, e) =~= f);
    assert(p.subrange(20, e) =~= f);
    assert(n.subrange(20, e) =~= f);
    lemma_run_end_exact(z, f);
    lemma_run_end_exact(p, f);
    lemma_run_end_exact(n, f);
    assert(frac_end(z) == e && frac_end(p) == e && frac_end(n) == e);
    assert(frac_digits(z) =~= frac_digits(p));
    assert(frac_digits(z) =~= frac_digits(n));
    assert(p.subrange(e + 1, e + 3) =~= h);
    assert(p.subrange(e + 4, e + 6) =~= m);
    assert(n.subrange(e + 1, e + 3) =~= h);
    assert(n.subrange(e + 4, e + 6) =~= m);
    assert(!has_offset(z));
    assert(has_offset(p) && has_offset(n));
}

/// A fraction adds nanoseconds: `D.FZ` is `DZ` plus the value of `F` read as a fraction of a
/// second, `F` padded with zeros to nine digits when shorter; digits past the ninth are cut
/// off, so `D.FZ` is then `D.GZ` where `G` is the first nine digits of `F`.
pub proof fn fraction_adds_nanoseconds(d: Seq<u8>, f: Seq<u8>)
    requires
        d.len() == 19,
        all_digits(f),
    ensures
        f.len() <= 9 ==> rfc3339_value(d + seq![DOT] + f + seq![UPPER_Z]) == match rfc3339_value(
            d + seq![UPPER_Z],
        ) {
            Some(t) => Some(t + digits_value(f) * pow10((9 - f.len()) as nat)),
            None => None,
        },
        f.len() > 9 ==> rfc3339_value(d + seq![DOT] + f + seq![UPPER_Z]) == rfc3339_value(
            d + seq![DOT] + f.subrange(0, 9) + seq![UPPER_Z],
        ),
{
    let z = d + seq![UPPER_Z];
    let b = d + seq![DOT] + f + seq![UPPER_Z];
    let e: int = 20 + f.len() as int;
    assert(z.subrange(0, 19) =~= d);
    assert(b.subrange(0, 19) =~= d);
    lemma_same_head(d, z);
    lemma_same_head(d, b);
    assert(b.subrange(20, e) =~= f);
    lemma_run_end_exact(b, f);
    assert(frac_digits(b) =~= f);
    assert(!has_offset(z) && !has_offset(b));
    assert(frac_digits(z) =~= Seq::<u8>::empty());
    assert(frac_digits(z).subrange(0, 0) =~= Seq::<u8>::empty());
    assert(frac_nanos(z) == 0) by (nonlinear_arith)
        requires
            frac_nanos(z) == digits_value(frac_digits(z).subrange(0, frac_used(z))) * pow10(
                (9 - frac_used(z)) as nat,
            ),
            digits_value(frac_digits(z).subrange(0, frac_used(z))) == 0,
    ;
    if f.len() <= 9 {
        assert(f.subrange(0, f.len() as int) =~= f);
    } else {
        let g = f.subrange(0, 9);
        let c = d + seq![DOT] + g + seq![UPPER_Z];
        assert(all_digits(g)) by {
            assert forall|j: int| 0 <= j < g.len() implies is_digit(#[trigger] g[j]) by {
                assert(g[j] == f[j]);
            }
        }
        assert(c.subrange(0, 19) =~= d);
        lemma_same_head(d, c);
        assert(c.subrange(20, 29) =~= g);
        lemma_run_end_exact(c, g);
        assert(frac_digits(c) =~= g);
        assert(g.subrange(0, 9) =~= f.subrange(0, 9));
        assert(!has_offset(c));
    }
}

/// The digits after the `.` at index 19 run exactly over `f` when a non-digit follows it.
proof fn lemma_run_end_exact(b: Seq<u8>, f: Seq<u8>)
    requires
        all_digits(f),
        20 + f.len() < b.len(),
        b[19] == DOT,
        b.subrange(20, 20 + f.len() as int) == f,
        !is_digit(b[20 + f.len() as int]),
    ensures
        digit_run_end(b, 20) == 20 + f.len(),
{
    let e = digit_run_end(b, 20);
    let k: int = 20 + f.len() as int;
    lemma_digit_run_end(b, 20);
    if e < k {
        assert(b[e] == b.subrange(20, k)[e - 20]);
        assert(is_digit(f[e - 20]));
    }
    if e > k {
        assert(is_digit(b[k]));
    }
}

/// Leap days of the proleptic Gregorian calendar before `year`, counted from year 1.
pub open spec fn leap_days_before(year: int) -> int {
    (year - 1) / 4 - (year - 1) / 100 + (year - 1) / 400
}

/// The day of the year (counted from 0) on which `month` starts: 0 for January, 31 for
/// February, and from March on `(153 * (month - 3) + 2) / 5 + 59`, one more in leap years.
pub open spec fn month_start(year: int, month: int) -> int {
    if month <= 1 {
        0
    } else if month == 2 {
        31
    } else {
        (153 * (month - 3) + 2) / 5 + 59 + if leap(year) { 1int } else { 0int }
    }
}

/// Days since 1970-01-01 in closed form: 365 a year, plus the leap days of the Gregorian
/// rule (every fourth year, not every hundredth, but every four hundredth), plus the day of
/// the year on which the month starts, plus the day of the month. Every year counts, before
/// 1970 too; a month of 13 is the start of the next year.
pub proof fn epoch_days_closed_form(year: int, month: int, day: int)
    requires
        1 <= month <= 13,
    ensures
        epoch_days(year, month, day) == 365 * (year - 1970) + leap_days_before(year) - 477
            + month_start(year, month) + day - 1,
{
    lemma_days_before_year_closed(year);
    reveal_with_fuel(days_before_month, 14);
}

proof fn lemma_leap_days_step(y: int)
    ensures
        leap_days_before(y + 1) == leap_days_before(y) + if leap(y) { 1int } else { 0int },
{
    assert(y / 4 - (y - 1) / 4 == if y % 4 == 0 { 1int } else { 0int });
    assert(y / 100 - (y - 1) / 100 == if y % 100 == 0 { 1int } else { 0int });
    assert(y / 400 - (y - 1) / 400 == if y % 400 == 0 { 1int } else { 0int });
    assert(y % 400 == 0 ==> y % 100 == 0 && y % 4 == 0);
    assert(y % 100 == 0 ==> y % 4 == 0);
}

proof fn lemma_days_before_year_closed(y: int)
    ensures
        days_before_year(y) == 365 * (y - 1970) + leap_days_before(y) - 477,
    decreases (if y >= 1970 { y - 1970 } else { 1970 - y }),
{
    if y > 1970 {
        lemma_days_before_year_closed(y - 1);
        lemma_days_before_year_step(y - 1);
        lemma_leap_days_step(y - 1);
    } else if y < 1970 {
        lemma_days_before_year_closed(y + 1);
        lemma_days_before_year_step(y);
        lemma_leap_days_step(y);
    } else {
        assert(leap_days_before(1970) == 477);
    }
}

proof fn lemma_pow10_table()
    ensures
        pow10(2) == 100,
        pow10(4) == 10000,
        pow10(9) == 1_000_000_000,
{
    reveal_with_fuel(pow10, 10);
}

proof fn lemma_pow10_pos(n: nat)
    ensures
        pow10(n) >= 1,
    decreases n,
{
    if n > 0 {
        lemma_pow10_pos((n - 1) as nat);
    }
}

proof fn lemma_pow10_mono(a: nat, b: nat)
    requires
        a <= b,
    ensures
        pow10(a) <= pow10(b),
    decreases b,
{
    if a < b {
        lemma_pow10_mono(a, (b - 1) as nat);
        lemma_pow10_pos((b - 1) as nat);
    }
}

proof fn lemma_digits_value_bound(s: Seq<u8>)
    requires
        all_digits(s),
    ensures
        digits_value(s) < pow10(s.len()),
    decreases s.len(),
{
    if s.len() > 0 {
        let t = s.drop_last();
        assert(all_digits(t)) by {
            assert forall|i: int| 0 <= i < t.len() implies is_digit(#[trigger] t[i]) by {
                assert(t[i] == s[i]);
            }
        }
        lemma_digits_value_bound(t);
        assert(is_digit(s[s.len() - 1]));
    }
}

proof fn lemma_digit_run_end(b: Seq<u8>, i: int)
    requires
        0 <= i <= b.len(),
    ensures
        i <= digit_run_end(b, i) <= b.len(),
        forall|j: int| i <= j < digit_run_end(b, i) ==> is_digit(#[trigger] b[j]),
        digit_run_end(b, i) < b.len() ==> !is_digit(b[digit_run_end(b, i)]),
    decreases b.len() - i,
{
    if i < b.len() && is_digit(b[i]) {
        lemma_digit_run_end(b, i + 1);
    }
}

/// Value of the digits `b[start..end]`, or `None` if one is not a digit.
fn parse_digits(b: &[u8], start: usize, end: usize) -> (r: Option<u32>)
    requires
        start <= end <= b.len(),
        end - start <= 9,
    ensures
        r matches Some(v) ==> digit_field(b@, start as int, end as int) == Some(v as nat),
        r is None ==> digit_field(b@, start as int, end as int) is None,
{
    let ghost s = b@.subrange(start as int, end as int);
    let mut val: u32 = 0;
    let mut i = start;
    while i < end
        invariant
            start <= i <= end <= b.len(),
            end - start <= 9,
            s == b@.subrange(start as int, end as int),
            all_digits(b@.subrange(start as int, i as int)),
            val as nat == digits_value(b@.subrange(start as int, i as int)),
            val < pow10((i - start) as nat),
        decreases end - i,
    {
        let x = b[i];
        if !(ZERO <= x && x <= NINE) {
            assert(!is_digit(s[i - start]));
            return None;
        }
        proof {
            lemma_pow10_mono((i - start + 1) as nat, 9);
            lemma_pow10_table();
            let p = b@.subrange(start as int, i as int);
            let q = b@.subrange(start as int, i + 1);
            assert(q.drop_last() =~= p);
            assert(all_digits(q)) by {
                assert forall|j: int| 0 <= j < q.len() implies is_digit(#[trigger] q[j]) by {
                    if j < p.len() {
                        assert(q[j] == p[j]);
                    }
                }
            }
        }
        val = val * 10 + (x - ZERO) as u32;
        i = i + 1;
    }
    assert(b@.subrange(start as int, i as int) =~= s);
    Some(val)
}

/// Ten to the power `e`.
fn pow10_u32(e: u32) -> (r: u32)
    requires
        e <= 9,
    ensures
        r as nat == pow10(e as nat),
{
    let mut r: u32 = 1;
    let mut i: u32 = 0;
    while i < e
        invariant
            i <= e <= 9,
            r as nat == pow10(i as nat),
        decreases e - i,
    {
        proof {
            lemma_pow10_mono((i + 1) as nat, 9);
            lemma_pow10_table();
        }
        r = r * 10;
        i = i + 1;
    }
    r
}

/// Parses an RFC 3339 timestamp (`YYYY-MM-DDTHH:MM:SS[.fraction][Z|+HH:MM|-HH:MM]`) into Unix
/// nanoseconds, without allocating.
///
/// The fraction is padded or cut to nine digits. A month above 13 is refused. An offset counts
/// only when at least six bytes from its sign on remain; anything else after the seconds is
/// ignored.
pub fn parse_rfc3339_timestamp(bytes: &[u8]) -> (r: Option<i64>)
    requires
        rfc3339_in_range(bytes@),
    ensures
        r matches Some(v) ==> rfc3339_value(bytes@) == Some(v as int),
        r is None ==> rfc3339_value(bytes@) is None,
{
    let ghost b = bytes@;
    if bytes.len() < 20 {
        return None;
    }
    let year = match parse_digits(bytes, 0, 4) {
        Some(v) => v as i32,
        None => return None,
    };
    if bytes[4] != DASH {
        return None;
    }
    let month = match parse_digits(bytes, 5, 7) {
        Some(v) => v,
        None => return None,
    };
    if bytes[7] != DASH {
        return None;
    }
    let day = match parse_digits(bytes, 8, 10) {
        Some(v) => v,
        None => return None,
    };
    if bytes[10] != UPPER_T {
        return None;
    }
    let hour = match parse_digits(bytes, 11, 13) {
        Some(v) => v,
        None => return None,
    };
    if bytes[13] != COLON {
        return None;
    }
    let min = match parse_digits(bytes, 14, 16) {
        Some(v) => v,
        None => return None,
    };
    if bytes[16] != COLON {
        return None;
    }
    let sec = match parse_digits(bytes, 17, 19) {
        Some(v) => v,
        None => return None,
    };
    assert(rfc3339_head_ok(b));
    proof {
        lemma_digits_value_bound(b.subrange(0, 4));
        lemma_pow10_table();
    }

    if month > 13 {
        return None;
    }

    let mut nsec: u32 = 0;
    let mut idx: usize = 19;
    if idx < bytes.len() && bytes[idx] == DOT {
        idx += 1;
        let start = idx;
        while idx < bytes.len() && ZERO <= bytes[idx] && bytes[idx] <= NINE
            invariant
                b == bytes@,
                20 == start <= idx <= bytes.len(),
                digit_run_end(b, start as int) == digit_run_end(b, idx as int),
            decreases bytes.len() - idx,
        {
            idx += 1;
        }
        proof {
            lemma_digit_run_end(b, 20);
        }
        assert(idx as int == frac_end(b));
        let len = idx - start;
        assert(frac_digits(b) =~= b.subrange(20, idx as int));
        let used = if len < 9 { len } else { 9 };
        assert(used as int == frac_used(b));
        assert(frac_digits(b).subrange(0, used as int) =~= b.subrange(20, 20 + used));
        assert(all_digits(b.subrange(20, 20 + used))) by {
            let f = b.subrange(20, 20 + used);
            assert forall|j: int| 0 <= j < f.len() implies is_digit(#[trigger] f[j]) by {
                assert(f[j] == b[20 + j]);
            }
        }
        let val = match parse_digits(bytes, start, start + used) {
            Some(v) => v,
            None => return None,
        };
        let multiplier = pow10_u32(9 - used as u32);
        proof {
            lemma_digits_value_bound(b.subrange(20, 20 + used));
            lemma_pow10_table();
            lemma_pow10_add(used as nat, (9 - used) as nat);
            assert(val * multiplier <= pow10(9)) by (nonlinear_arith)
                requires
                    val < pow10(used as nat),
                    multiplier == pow10((9 - used) as nat),
                    pow10(used as nat) * pow10((9 - used) as nat) == pow10(9),
            ;
        }
        nsec = val * multiplier;
        assert(val as nat == digits_value(frac_digits(b).subrange(0, frac_used(b))));
        assert(nsec as int == frac_nanos(b));
    } else {
        assert(frac_digits(b) =~= Seq::<u8>::empty());
        assert(frac_digits(b).subrange(0, 0) =~= Seq::<u8>::empty());
        assert(digits_value(frac_digits(b).subrange(0, 0)) == 0);
        proof {
            lemma_pow10_table();
        }
        assert(frac_nanos(b) == 0) by (nonlinear_arith)
            requires
                frac_nanos(b) == digits_value(frac_digits(b).subrange(0, frac_used(b))) * pow10(
                    (9 - frac_used(b)) as nat,
                ),
                digits_value(frac_digits(b).subrange(0, frac_used(b))) == 0,
        ;
    }
    assert(idx as int == frac_end(b));
    assert(nsec as int == frac_nanos(b));

    let mut offset_sec: i64 = 0;
    if idx < bytes.len() {
        if bytes[idx] == PLUS || bytes[idx] == DASH {
            let is_negative = bytes[idx] == DASH;
            if bytes.len() - idx > 5 {
                let h_offset = match parse_digits(bytes, idx + 1, idx + 3) {
                    Some(v) => v as i64,
                    None => return None,
                };
                let m_offset = match parse_digits(bytes, idx + 4, idx + 6) {
                    Some(v) => v as i64,
                    None => return None,
                };
                proof {
                    assert(h_offset < 100 && m_offset < 100) by {
                        lemma_digits_value_bound(b.subrange(idx + 1, idx + 3));
                        lemma_digits_value_bound(b.subrange(idx + 4, idx + 6));
                        lemma_pow10_table();
                    }
                    lemma_digits_value_bound(b.subrange(idx + 1, idx + 3));
                    lemma_digits_value_bound(b.subrange(idx + 4, idx + 6));
                    lemma_pow10_table();
                }
                offset_sec = h_offset * 3600 + m_offset * 60;
                if is_negative {
                    offset_sec = -offset_sec;
                }
            }
        }
    }
    assert(offset_sec == offset_seconds(b));
    assert(rfc3339_accepts(b));
    let ts = utc_to_nanoseconds(year, month, day, hour, min, sec, nsec);
    assert(-400000 <= offset_sec <= 400000);
    Some(ts - offset_sec * 1_000_000_000)
}

proof fn lemma_days_before_month_upper(year: int, m: int)
    ensures
        days_before_month(year, m) <= 31 * (if m > 1 { m - 1 } else { 0 }),
    decreases m,
{
    if m > 1 {
        lemma_days_before_month_upper(year, m - 1);
    }
}

/// `epoch_nanos` for four-digit years, computed without the risk of overflow.
fn epoch_nanos_wide(
    year: u32,
    month: u32,
    day: u32,
    hour: u32,
    min: u32,
    sec: u32,
    nsec: u32,
) -> (r: i128)
    requires
        year <= 9999,
        month <= 13,
        day <= 99,
        hour <= 99,
        min <= 99,
        sec <= 99,
    ensures
        r == epoch_nanos(year as int, month as int, day as int, hour as int, min as int, sec as int, nsec as int),
        -1_000_000_000_000_000_000_000 < r < 1_000_000_000_000_000_000_000,
{
    let mut days: i128 = 0;
    if year >= 1970 {
        let mut y: u32 = 1970;
        while y < year
            invariant
                1970 <= y <= year <= 9999,
                days == days_before_year(y as int),
                0 <= days <= 366 * (y - 1970),
            decreases year - y,
        {
            proof {
                lemma_days_before_year_step(y as int);
            }
            days = days + if is_leap_year(y as i32) { 366 } else { 365 };
            y = y + 1;
        }
    } else {
        let mut y: u32 = year;
        while y < 1970
            invariant
                year <= y <= 1970,
                days == days_before_year(year as int) - days_before_year(y as int),
                -366 * (y - year) <= days <= 0,
            decreases 1970 - y,
        {
            proof {
                lemma_days_before_year_step(y as int);
            }
            days = days - if is_leap_year(y as i32) { 366 } else { 365 };
            y = y + 1;
        }
    }
    let ghost base = days;
    assert(base == days_before_year(year as int));
    assert(-366 * 1970 <= base <= 366 * 8029);
    let mut m: u32 = 1;
    while m < month
        invariant
            1 <= m,
            m <= month || month < 1,
            month <= 13,
            month < 1 ==> m == 1,
            year <= 9999,
            base == days_before_year(year as int),
            -366 * 1970 <= base <= 366 * 8029,
            0 <= days_before_month(year as int, m as int),
            days == base + days_before_month(year as int, m as int),
            days_before_month(year as int, m as int) <= 31 * (m - 1),
        decreases month - m,
    {
        proof {
            lemma_days_before_month_upper(year as int, m + 1);
            lemma_days_before_month_nonneg(year as int, m + 1);
        }
        days = days + month_length(m, is_leap_year(year as i32));
        m = m + 1;
    }
    days = days + (day as i128) - 1;
    let seconds = days * 86400 + (hour as i128) * 3600 + (min as i128) * 60 + (sec as i128);
    seconds * 1_000_000_000 + (nsec as i128)
}

/// Days in month `m` (1 to 12) of a year, leap or not.
fn month_length(m: u32, leap_year: bool) -> (r: i128)
    requires
        1 <= m <= 12,
    ensures
        r == common_month_len(m as int) + if m == 2 && leap_year { 1int } else { 0int },
{
    if m == 2 {
        if leap_year { 29 } else { 28 }
    } else if m == 4 || m == 6 || m == 9 || m == 11 {
        30
    } else {
        31
    }
}

/// Whether the timestamp arithmetic stays within `i64` for `bytes`: decides `rfc3339_in_range`,
/// so that a caller can check it before parsing.
pub fn rfc3339_in_range_check(bytes: &[u8]) -> (r: bool)
    ensures
        r == rfc3339_in_range(bytes@),
{
    let ghost b = bytes@;
    if bytes.len() < 20 {
        return true;
    }
    let year = match parse_digits(bytes, 0, 4) {
        Some(v) => v,
        None => return true,
    };
    let month = match parse_digits(bytes, 5, 7) {
        Some(v) => v,
        None => return true,
    };
    let day = match parse_digits(bytes, 8, 10) {
        Some(v) => v,
        None => return true,
    };
    let hour = match parse_digits(bytes, 11, 13) {
        Some(v) => v,
        None => return true,
    };
    let min = match parse_digits(bytes, 14, 16) {
        Some(v) => v,
        None => return true,
    };
    let sec = match parse_digits(bytes, 17, 19) {
        Some(v) => v,
        None => return true,
    };
    if bytes[4] != DASH || bytes[7] != DASH || bytes[10] != UPPER_T || bytes[13] != COLON
        || bytes[16] != COLON || month > 13 {
        return true;
    }
    assert(rfc3339_head_ok(b));
    proof {
        lemma_pow10_table();
        lemma_digits_value_bound(b.subrange(0, 4));
        lemma_digits_value_bound(b.subrange(5, 7));
        lemma_digits_value_bound(b.subrange(8, 10));
        lemma_digits_value_bound(b.subrange(11, 13));
        lemma_digits_value_bound(b.subrange(14, 16));
        lemma_digits_value_bound(b.subrange(17, 19));
    }

    let mut fend: usize = 19;
    let mut nsec: u32 = 0;
    if bytes[19] == DOT {
        fend = 20;
        while fend < bytes.len() && ZERO <= bytes[fend] && bytes[fend] <= NINE
            invariant
                b == bytes@,
                20 <= fend <= bytes.len(),
                digit_run_end(b, 20) == digit_run_end(b, fend as int),
            decreases bytes.len() - fend,
        {
            fend += 1;
        }
        proof {
            lemma_digit_run_end(b, 20);
        }
        let len = fend - 20;
        assert(frac_digits(b) =~= b.subrange(20, fend as int));
        let used = if len < 9 { len } else { 9 };
        assert(used as int == frac_used(b));
        assert(frac_digits(b).subrange(0, used as int) =~= b.subrange(20, 20 + used));
        assert(all_digits(b.subrange(20, 20 + used))) by {
            let f = b.subrange(20, 20 + used);
            assert forall|j: int| 0 <= j < f.len() implies is_digit(#[trigger] f[j]) by {
                assert(f[j] == b[20 + j]);
            }
        }
        let val = match parse_digits(bytes, 20, 20 + used) {
            Some(v) => v,
            None => return true,
        };
        let multiplier = pow10_u32(9 - used as u32);
        proof {
            lemma_digits_value_bound(b.subrange(20, 20 + used));
            lemma_pow10_add(used as nat, (9 - used) as nat);
            assert(val * multiplier <= pow10(9)) by (nonlinear_arith)
                requires
                    val < pow10(used as nat),
                    multiplier == pow10((9 - used) as nat),
                    pow10(used as nat) * pow10((9 - used) as nat) == pow10(9),
            ;
        }
        nsec = val * multiplier;
    } else {
        assert(frac_digits(b) =~= Seq::<u8>::empty());
        assert(frac_digits(b).subrange(0, 0) =~= Seq::<u8>::empty());
    }
    assert(fend as int == frac_end(b));
    assert(nsec as int == frac_nanos(b));

    let mut offset_sec: i128 = 0;
    let len = bytes.len();
    if fend < len && (bytes[fend] == PLUS || bytes[fend] == DASH) && len - fend > 5 {
        let h = match parse_digits(bytes, fend + 1, fend + 3) {
            Some(v) => v,
            None => return true,
        };
        let m = match parse_digits(bytes, fend + 4, fend + 6) {
            Some(v) => v,
            None => return true,
        };
        proof {
            lemma_digits_value_bound(b.subrange(fend + 1, fend + 3));
            lemma_digits_value_bound(b.subrange(fend + 4, fend + 6));
        }
        offset_sec = (h as i128) * 3600 + (m as i128) * 60;
        if bytes[fend] == DASH {
            offset_sec = -offset_sec;
        }
        assert(-400000 <= offset_sec <= 400000);
    }
    assert(offset_sec == offset_seconds(b));
    assert(rfc3339_accepts(b));
    let local = epoch_nanos_wide(year, month, day, hour, min, sec, nsec);
    assert(local == rfc3339_local_nanos(b));
    let min_i64: i128 = -0x8000_0000_0000_0000;
    let max_i64: i128 = 0x7fff_ffff_ffff_ffff;
    let shifted = local - offset_sec * 1_000_000_000;
    min_i64 <= local - (nsec as i128) && local <= max_i64 && min_i64 <= shifted && shifted
        <= max_i64
}

proof fn lemma_pow10_add(a: nat, b: nat)
    ensures
        pow10(a) * pow10(b) == pow10(a + b),
    decreases a,
{
    if a > 0 {
        lemma_pow10_add((a - 1) as nat, b);
        assert(pow10(a + b) == 10 * pow10((a - 1 + b) as nat));
        assert(pow10(a) * pow10(b) == 10 * (pow10((a - 1) as nat) * pow10(b))) by (nonlinear_arith)
            requires
                pow10(a) == 10 * pow10((a - 1) as nat),
        ;
        assert(pow10((a - 1) as nat) * pow10(b) == pow10((a - 1 + b) as nat));
    } else {
        assert(pow10(a) == 1);
        assert(pow10(a) * pow10(b) == pow10(b)) by (nonlinear_arith)
            requires
                pow10(a) == 1,
        ;
    }
}

} // verus!
