//! Timestamps embedded in artifact names.
//!
//! An artifact name carries its position in the timeline as a fixed-width
//! `YYYYMMDDHHMMSS` field: the 14 bytes that follow the second underscore
//! of the name. This module gives that field a meaning: a proleptic
//! Gregorian date-time, mapped to a total count of seconds so that the
//! difference of two stamps is the real delay between them.

use vstd::prelude::*;
use vstd::arithmetic::div_mod::lemma_div_is_ordered;
use vstd::arithmetic::div_mod::lemma_div_is_ordered_by_denominator;

verus! {

/// Gregorian leap-year rule.
pub open spec fn is_leap_year(y: int) -> bool {
    y % 4 == 0 && (y % 100 != 0 || y % 400 == 0)
}

/// Length of month `m` (1-based) of year `y`, in days.
pub open spec fn days_in_month(y: int, m: int) -> int {
    if m == 2 {
        if is_leap_year(y) {
            29
        } else {
            28
        }
    } else if m == 4 || m == 6 || m == 9 || m == 11 {
        30
    } else {
        31
    }
}

/// Number of leap years in the range `[0, y)` (year 0 is a leap year).
pub open spec fn leap_years_before(y: int) -> int {
    if y <= 0 {
        0
    } else {
        (y - 1) / 4 - (y - 1) / 100 + (y - 1) / 400 + 1
    }
}

/// Days in the months of year `y` that precede month `m`.
pub open spec fn days_before_month(y: int, m: int) -> int
    decreases m,
{
    if m <= 1 {
        0
    } else {
        days_before_month(y, m - 1) + days_in_month(y, m - 1)
    }
}

/// Day count of the date `y-m-d` from the zero point `0000-01-01`.
pub open spec fn day_index(y: int, m: int, d: int) -> int {
    y * 365 + leap_years_before(y) + days_before_month(y, m) + (d - 1)
}

/// The six fields form a real calendar date and time of day.
pub open spec fn valid_fields(y: int, mo: int, d: int, h: int, mi: int, s: int) -> bool {
    &&& 0 <= y <= 9999
    &&& 1 <= mo <= 12
    &&& 1 <= d <= days_in_month(y, mo)
    &&& 0 <= h <= 23
    &&& 0 <= mi <= 59
    &&& 0 <= s <= 59
}

/// Seconds from `0000-01-01 00:00:00` to the given date and time.
pub open spec fn stamp_seconds(y: int, mo: int, d: int, h: int, mi: int, s: int) -> int {
    day_index(y, mo, d) * 86400 + h * 3600 + mi * 60 + s
}

/// Every valid stamp lies below `SECONDS_BOUND`, so second counts and
/// their differences always fit in `u64` values.
pub const SECONDS_BOUND: u64 = 320_000_000_000;

proof fn lemma_days_before_month_bound(y: int, m: int)
    requires
        1 <= m <= 12,
    ensures
        0 <= days_before_month(y, m) <= 31 * (m - 1),
    decreases m,
{
    if m > 1 {
        lemma_days_before_month_bound(y, m - 1);
    }
}

/// A valid date-time maps to a second count below `SECONDS_BOUND`.
pub proof fn lemma_stamp_seconds_bound(y: int, mo: int, d: int, h: int, mi: int, s: int)
    requires
        valid_fields(y, mo, d, h, mi, s),
    ensures
        0 <= stamp_seconds(y, mo, d, h, mi, s) < SECONDS_BOUND,
{
    lemma_days_before_month_bound(y, mo);
    if y > 0 {
        lemma_div_is_ordered(0, y - 1, 4);
        lemma_div_is_ordered(0, y - 1, 400);
        lemma_div_is_ordered_by_denominator(y - 1, 4, 100);
        lemma_div_is_ordered(y - 1, 9998, 4);
        lemma_div_is_ordered(0, y - 1, 100);
        lemma_div_is_ordered(y - 1, 9998, 400);
    }
}

/// Number of leap years before year `y`, executable form.
fn leap_years_before_x(y: u64) -> (r: u64)
    requires
        y <= 9999,
    ensures
        r == leap_years_before(y as int),
        r <= 2500,
{
    if y == 0 {
        0
    } else {
        let q4: u64 = (y - 1) / 4;
        let q100: u64 = (y - 1) / 100;
        let q400: u64 = (y - 1) / 400;
        proof {
            lemma_div_is_ordered_by_denominator((y - 1) as int, 4, 100);
            lemma_div_is_ordered((y - 1) as int, 9998, 4);
            lemma_div_is_ordered(0, (y - 1) as int, 400);
        }
        q4 - q100 + q400 + 1
    }
}

/// Length of month `m` of year `y`, executable form.
pub fn days_in_month_x(y: u64, m: u64) -> (r: u64)
    requires
        1 <= m <= 12,
    ensures
        r == days_in_month(y as int, m as int),
{
    if m == 2 {
        if (y % 4 == 0 && y % 100 != 0) || y % 400 == 0 {
            29
        } else {
            28
        }
    } else if m == 4 || m == 6 || m == 9 || m == 11 {
        30
    } else {
        31
    }
}

fn days_before_month_x(y: u64, m: u64) -> (r: u64)
    requires
        1 <= m <= 12,
    ensures
        r == days_before_month(y as int, m as int),
        r <= 341,
{
    let mut acc: u64 = 0;
    let mut k: u64 = 1;
    proof {
        lemma_days_before_month_bound(y as int, m as int);
    }
    while k < m
        invariant
            1 <= k <= m <= 12,
            acc == days_before_month(y as int, k as int),
            0 <= days_before_month(y as int, m as int) <= 341,
            acc <= 341,
        decreases m - k,
    {
        proof {
            lemma_days_before_month_bound(y as int, (k + 1) as int);
        }
        acc = acc + days_in_month_x(y, k);
        k = k + 1;
    }
    acc
}

/// ASCII digit.
pub open spec fn is_digit(b: u8) -> bool {
    48 <= b <= 57
}

/// Value of an ASCII digit.
pub open spec fn digit_val(b: u8) -> int {
    b - 48
}

/// The `k` bytes of `s` starting at `i` are all ASCII digits.
pub open spec fn digits_at(s: Seq<u8>, i: int, k: int) -> bool {
    forall|j: int| i <= j < i + k ==> is_digit(#[trigger] s[j])
}

/// Value of the four-digit decimal field of `s` starting at `i`.
pub open spec fn num4(s: Seq<u8>, i: int) -> int {
    digit_val(s[i]) * 1000 + digit_val(s[i + 1]) * 100 + digit_val(s[i + 2]) * 10 + digit_val(
        s[i + 3],
    )
}

/// Value of the two-digit decimal field of `s` starting at `i`.
pub open spec fn num2(s: Seq<u8>, i: int) -> int {
    digit_val(s[i]) * 10 + digit_val(s[i + 1])
}

/// Index of the first underscore of `s` at or after `from`; `-1` if none.
pub open spec fn find_sep(s: Seq<u8>, from: int) -> int
    decreases s.len() - from,
{
    if from < 0 || from >= s.len() {
        -1
    } else if s[from] == 95 {
        from
    } else {
        find_sep(s, from + 1)
    }
}

/// The stamp read from position `i` of `s`: 14 ASCII digits forming a
/// valid `YYYYMMDDHHMMSS` date-time, mapped to seconds. Bytes after the
/// 14-digit field are not inspected.
pub open spec fn stamp_at(s: Seq<u8>, i: int) -> Option<int> {
    if i + 14 <= s.len() && digits_at(s, i, 14) {
        let y = num4(s, i);
        let mo = num2(s, i + 4);
        let d = num2(s, i + 6);
        let h = num2(s, i + 8);
        let mi = num2(s, i + 10);
        let sec = num2(s, i + 12);
        if valid_fields(y, mo, d, h, mi, sec) {
            Some(stamp_seconds(y, mo, d, h, mi, sec))
        } else {
            None
        }
    } else {
        None
    }
}

/// The stamp embedded in an artifact name: the date-time field begins
/// right after the second underscore of the name.
pub open spec fn stamp_of_name(name: Seq<u8>) -> Option<int> {
    let u1 = find_sep(name, 0);
    if u1 < 0 {
        None
    } else {
        let u2 = find_sep(name, u1 + 1);
        if u2 < 0 {
            None
        } else {
            stamp_at(name, u2 + 1)
        }
    }
}

/// A stamp read from a name lies below `SECONDS_BOUND`.
pub proof fn lemma_stamp_of_name_bounds(name: Seq<u8>)
    ensures
        stamp_of_name(name) is Some ==> 0 <= stamp_of_name(name)->0 < SECONDS_BOUND,
{
    if stamp_of_name(name) is Some {
        let u1 = find_sep(name, 0);
        let u2 = find_sep(name, u1 + 1);
        let i = u2 + 1;
        lemma_stamp_seconds_bound(
            num4(name, i),
            num2(name, i + 4),
            num2(name, i + 6),
            num2(name, i + 8),
            num2(name, i + 10),
            num2(name, i + 12),
        );
    }
}

/// Scanning over a separator-free range does not change the result.
proof fn lemma_find_sep_skip(s: Seq<u8>, from: int, i: int)
    requires
        0 <= from <= i <= s.len(),
        forall|k: int| from <= k < i ==> s[k] != 95,
    ensures
        find_sep(s, from) == find_sep(s, i),
    decreases i - from,
{
    if from < i {
        lemma_find_sep_skip(s, from + 1, i);
    }
}

/// Index of the first underscore of `name` at or after `from`.
fn find_sep_x(name: &Vec<u8>, from: usize) -> (r: Option<usize>)
    requires
        from <= name@.len(),
    ensures
        match r {
            Some(i) => find_sep(name@, from as int) == i && from <= i < name@.len(),
            None => find_sep(name@, from as int) == -1,
        },
{
    let mut i: usize = from;
    while i < name.len()
        invariant
            from <= i <= name@.len(),
            forall|k: int| from <= k < i ==> name@[k] != 95,
        decreases name@.len() - i,
    {
        if name[i] == 95 {
            proof {
                lemma_find_sep_skip(name@, from as int, i as int);
            }
            return Some(i);
        }
        i = i + 1;
    }
    proof {
        lemma_find_sep_skip(name@, from as int, name@.len() as int);
    }
    None
}

/// Value of the two-digit field at `i`; the bytes must be digits.
fn num2_x(name: &Vec<u8>, i: usize) -> (r: u64)
    requires
        i + 2 <= name@.len(),
        digits_at(name@, i as int, 2),
    ensures
        r == num2(name@, i as int),
        r <= 99,
{
    let n = name.len();
    proof {
        assert(is_digit(name@[i as int]));
        assert(is_digit(name@[i as int + 1]));
        assert(i + 2 <= n);
    }
    (name[i] - 48) as u64 * 10 + (name[i + 1] - 48) as u64
}

/// The stamp embedded in `name`, in seconds, or `None` where the name
/// does not follow the `<text>_<text>_<YYYYMMDDHHMMSS>` convention.
pub fn parse_stamp(name: &Vec<u8>) -> (r: Option<u64>)
    ensures
        match r {
            Some(t) => stamp_of_name(name@) == Some(t as int) && t < SECONDS_BOUND,
            None => stamp_of_name(name@) is None,
        },
{
    let n = name.len();
    let u1 = match find_sep_x(name, 0) {
        Some(i) => i,
        None => {
            return None;
        },
    };
    let u2 = match find_sep_x(name, u1 + 1) {
        Some(i) => i,
        None => {
            return None;
        },
    };
    let start = u2 + 1;
    if n < 14 || start > n - 14 {
        return None;
    }
    let mut j: usize = 0;
    while j < 14
        invariant
            n == name@.len(),
            start + 14 <= n,
            0 <= j <= 14,
            stamp_of_name(name@) == stamp_at(name@, start as int),
            digits_at(name@, start as int, j as int),
        decreases 14 - j,
    {
        let b = name[start + j];
        if b < 48 || b > 57 {
            proof {
                assert(!is_digit(name@[start as int + j as int]));
            }
            return None;
        }
        j = j + 1;
    }
    let d0 = (name[start] - 48) as u64;
    let d1 = (name[start + 1] - 48) as u64;
    let d2 = (name[start + 2] - 48) as u64;
    let d3 = (name[start + 3] - 48) as u64;
    let y: u64 = d0 * 1000 + d1 * 100 + d2 * 10 + d3;
    let mo: u64 = num2_x(name, start + 4);
    let d: u64 = num2_x(name, start + 6);
    let h: u64 = num2_x(name, start + 8);
    let mi: u64 = num2_x(name, start + 10);
    let sec: u64 = num2_x(name, start + 12);
    if mo < 1 || mo > 12 {
        return None;
    }
    if d < 1 || d > days_in_month_x(y, mo) {
        return None;
    }
    if h > 23 || mi > 59 || sec > 59 {
        return None;
    }
    Some(stamp_seconds_x(y, mo, d, h, mi, sec))
}

/// Seconds from the zero point to the given valid date and time.
pub fn stamp_seconds_x(y: u64, mo: u64, d: u64, h: u64, mi: u64, s: u64) -> (r: u64)
    requires
        valid_fields(y as int, mo as int, d as int, h as int, mi as int, s as int),
    ensures
        r == stamp_seconds(y as int, mo as int, d as int, h as int, mi as int, s as int),
        r < SECONDS_BOUND,
{
    proof {
        lemma_stamp_seconds_bound(y as int, mo as int, d as int, h as int, mi as int, s as int);
    }
    let leaps: u64 = leap_years_before_x(y);
    let before: u64 = days_before_month_x(y, mo);
    let days: u64 = y * 365 + leaps + before + (d - 1);
    days * 86400 + h * 3600 + mi * 60 + s
}

} // verus!
