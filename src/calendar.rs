//! The proleptic Gregorian calendar: day numbers, month lengths and the
//! `YYYY-MM` month token.

use chrono::NaiveDate;
use vstd::arithmetic::div_mod::{lemma_fundamental_div_mod, lemma_mod_multiples_vanish};
use vstd::prelude::*;

use crate::time::{valid_secs, TimeError, Timestamp, LAST_NANO, MAX_SECS, MIN_SECS, SECS_PER_DAY};

verus! {

/// Earliest year that the calendar supports.
pub const MIN_YEAR: i32 = -262_143;

/// Latest year that the calendar supports.
pub const MAX_YEAR: i32 = 262_142;

pub open spec fn is_leap_year(y: int) -> bool {
    (y % 4 == 0 && y % 100 != 0) || y % 400 == 0
}

pub open spec fn days_in_month(y: int, m: int) -> int {
    if m == 2 {
        if is_leap_year(y) {
            29
        } else {
            28
        }
    } else if m == 4 || m == 6 || m == 9 || m == 11 {
        30
    } else {
        31
    }
}

/// Whether `y-m-d` is a date of the supported calendar.
pub open spec fn valid_date(y: int, m: int, d: int) -> bool {
    &&& MIN_YEAR <= y <= MAX_YEAR
    &&& 1 <= m <= 12
    &&& 1 <= d <= days_in_month(y, m)
}

/// The number of days in month `m` of year `y`.
pub fn month_length(y: i32, m: u32) -> (r: u32)
    requires
        MIN_YEAR <= y <= MAX_YEAR + 1,
        1 <= m <= 12,
    ensures
        r == days_in_month(y as int, m as int),
{
    if m == 2 {
        // Shifted by a multiple of 400 so that the remainders are taken of a
        // non-negative number.
        let shifted: u64 = (y as i64 + 400_000) as u64;
        proof {
            lemma_mod_multiples_vanish(100_000, y as int, 4);
            lemma_mod_multiples_vanish(4_000, y as int, 100);
            lemma_mod_multiples_vanish(1_000, y as int, 400);
        }
        if (shifted % 4 == 0 && shifted % 100 != 0) || shifted % 400 == 0 {
            29
        } else {
            28
        }
    } else if m == 4 || m == 6 || m == 9 || m == 11 {
        30
    } else {
        31
    }
}

/// Leap years among the years from 1 up to `y - 1` (counted with floor
/// division, so that differences give the leap years of any span).
pub open spec fn leap_years_before(y: int) -> int {
    (y - 1) / 4 - (y - 1) / 100 + (y - 1) / 400
}

/// Days in the months of year `y` before month `m`.
pub open spec fn days_before_month(y: int, m: int) -> int {
    let common: int = if m == 1 {
        0
    } else if m == 2 {
        31
    } else if m == 3 {
        59
    } else if m == 4 {
        90
    } else if m == 5 {
        120
    } else if m == 6 {
        151
    } else if m == 7 {
        181
    } else if m == 8 {
        212
    } else if m == 9 {
        243
    } else if m == 10 {
        273
    } else if m == 11 {
        304
    } else {
        334
    };
    common + if m > 2 && is_leap_year(y) {
        1int
    } else {
        0int
    }
}

/// Days from 1970-01-01 to `y-m-d` in the proleptic Gregorian calendar:
/// 365 for each year between, one more for each leap year between, then
/// the months and days before it within its year.
pub open spec fn epoch_day(y: int, m: int, d: int) -> int {
    365 * (y - 1970) + leap_years_before(y) - leap_years_before(1970) + days_before_month(y, m)
        + d - 1
}

/// Relies on chrono's `NaiveDate::from_ymd_opt`, which gives a date for
/// every valid year, month and day of its range, and on
/// `NaiveDate::to_epoch_days` for the days from 1970-01-01 to that date.
/// Every day of that range begins and ends within the supported instants.
#[verifier::external_body]
pub(crate) fn day_number(y: i32, m: u32, d: u32) -> (r: i64)
    requires
        valid_date(y as int, m as int, d as int),
    ensures
        r == epoch_day(y as int, m as int, d as int),
        MIN_SECS <= r * 86400,
        r * 86400 + 86399 <= MAX_SECS,
{
    NaiveDate::from_ymd_opt(y, m, d).unwrap().to_epoch_days() as i64
}

pub open spec fn is_digit(c: char) -> bool {
    '0' <= c && c <= '9'
}

/// A non-empty run of ASCII digits.
pub open spec fn all_digits(s: Seq<char>) -> bool {
    s.len() > 0 && forall|i: int| 0 <= i < s.len() ==> is_digit(#[trigger] s[i])
}

/// The number that a run of decimal digits denotes.
pub open spec fn digits_value(s: Seq<char>) -> nat
    decreases s.len(),
{
    if s.len() == 0 {
        0
    } else {
        digits_value(s.drop_last()) * 10 + (s.last() as u32 - '0' as u32) as nat
    }
}

/// Whether `s` is digits, a `'-'` at index `k`, and digits.
pub open spec fn dash_at(s: Seq<char>, k: int) -> bool {
    &&& 0 < k < s.len()
    &&& s[k] == '-'
    &&& all_digits(s.take(k))
    &&& all_digits(s.skip(k + 1))
}

/// The year and month that a `YYYY-MM` token names: a run of digits for
/// the year, `'-'`, and a run of digits for the month, with the year in the
/// supported calendar and the month from 1 to 12.
pub open spec fn month_token(s: Seq<char>) -> Option<(int, int)> {
    if exists|k: int| dash_at(s, k) {
        let k = choose|k: int| dash_at(s, k);
        let y = digits_value(s.take(k)) as int;
        let m = digits_value(s.skip(k + 1)) as int;
        if y <= MAX_YEAR && 1 <= m <= 12 {
            Some((y, m))
        } else {
            None
        }
    } else {
        None
    }
}

proof fn lemma_value_grows(t: Seq<char>, i: int, j: int)
    requires
        0 <= i <= j <= t.len(),
    ensures
        digits_value(t.take(i)) <= digits_value(t.take(j)),
    decreases j - i,
{
    if i < j {
        lemma_value_grows(t, i, j - 1);
        assert(t.take(j).drop_last() =~= t.take(j - 1));
    }
}

/// Reads the digits of `s` from `from` up to `to` as a number no larger
/// than `cap`.
pub(crate) fn read_number(s: &str, from: usize, to: usize, cap: u64) -> (r: Option<u64>)
    requires
        from <= to <= s@.len(),
    ensures
        ({
            let t = s@.subrange(from as int, to as int);
            match r {
                Some(v) => all_digits(t) && v == digits_value(t) && v <= cap,
                None => !all_digits(t) || digits_value(t) > cap,
            }
        }),
{
    let ghost t = s@.subrange(from as int, to as int);
    if from == to {
        return None;
    }
    let mut v: u64 = 0;
    let mut i: usize = from;
    while i < to
        invariant
            from <= i <= to <= s@.len(),
            t == s@.subrange(from as int, to as int),
            v <= cap,
            v == digits_value(t.take(i - from)),
            forall|j: int| 0 <= j < i - from ==> is_digit(#[trigger] t[j]),
        decreases to - i,
    {
        let c = s.get_char(i);
        proof {
            assert(t[i - from] == c);
            assert(t.take(i - from + 1).drop_last() =~= t.take(i - from));
        }
        if !('0' <= c && c <= '9') {
            return None;
        }
        // Wide enough for any `v` below `cap` times ten plus a digit.
        let next: u128 = v as u128 * 10 + (c as u32 - '0' as u32) as u128;
        if next > cap as u128 {
            proof {
                lemma_value_grows(t, i - from + 1, t.len() as int);
                assert(t.take(t.len() as int) =~= t);
            }
            return None;
        }
        v = next as u64;
        i = i + 1;
    }
    proof {
        assert(t.take(i - from) =~= t);
    }
    Some(v)
}

/// Reads a `YYYY-MM` token.
pub fn parse_month(s: &str) -> (r: Option<(i32, u32)>)
    ensures
        match r {
            Some((y, m)) => month_token(s@) == Some((y as int, m as int)),
            None => month_token(s@) is None,
        },
{
    let n = s.unicode_len();
    let mut k: usize = 0;
    while k < n && s.get_char(k) != '-'
        invariant
            k <= n,
            n == s@.len(),
            forall|j: int| 0 <= j < k ==> s@[j] != '-',
        decreases n - k,
    {
        k = k + 1;
    }
    proof {
        // Any dash that splits the token lies at `k`: one before it would be
        // a dash before the first, one after it would hold a dash among the
        // year's digits.
        assert forall|k2: int| dash_at(s@, k2) implies k2 == k by {
            if k2 < k {
                assert(s@[k2] != '-');
            } else if k2 > k {
                assert(s@.take(k2)[k as int] == '-');
            }
        }
    }
    if k == 0 || k >= n - 1 {
        proof {
            if k < n && k >= n - 1 {
                assert(s@.skip(k + 1).len() == 0);
            }
        }
        return None;
    }
    let y = read_number(s, 0, k, MAX_YEAR as u64);
    let m = read_number(s, k + 1, n, 12);
    proof {
        assert(s@.take(k as int) =~= s@.subrange(0, k as int));
        assert(s@.skip(k + 1) =~= s@.subrange(k + 1, n as int));
    }
    match (y, m) {
        (Some(y), Some(m)) => {
            if m == 0 {
                return None;
            }
            proof {
                assert(dash_at(s@, k as int));
            }
            Some((y as i32, m as u32))
        },
        _ => None,
    }
}


/// The local wall-clock reading, in seconds past 1970-01-01T00:00:00, at
/// which month `m` of year `y` begins: 00:00:00 on its first day.
pub open spec fn month_start_wall(y: int, m: int) -> int {
    epoch_day(y, m, 1) * 86400
}

/// The reading of the last whole second of month `m` of year `y`: 23:59:59
/// on its last day.
pub open spec fn month_end_wall(y: int, m: int) -> int {
    epoch_day(y, m, days_in_month(y, m)) * 86400 + 86399
}

/// The first day of month `m` of year `y`, at local midnight.
fn month_start(y: i32, m: u32) -> (r: Result<Timestamp, TimeError>)
    requires
        MIN_YEAR <= y <= MAX_YEAR,
        1 <= m <= 12,
    ensures
        match r {
            Ok(t) => t.wf() && t.wall() == month_start_wall(y as int, m as int),
            Err(e) => e == TimeError::UnresolvedLocalTime,
        },
{
    match Timestamp::from_wall(day_number(y, m, 1) * SECS_PER_DAY) {
        Some(t) => Ok(t),
        None => Err(TimeError::UnresolvedLocalTime),
    }
}

/// The first instant of the month that a `YYYY-MM` token names.
pub fn get_month_from_string(month_str: &str) -> (r: Result<Timestamp, TimeError>)
    ensures
        match month_token(month_str@) {
            None => r == Err::<Timestamp, TimeError>(TimeError::InvalidMonth),
            Some((y, m)) => match r {
                Ok(t) => t.wf() && t.wall() == month_start_wall(y, m),
                Err(e) => e == TimeError::UnresolvedLocalTime,
            },
        },
{
    match parse_month(month_str) {
        Some((y, m)) => month_start(y, m),
        None => Err(TimeError::InvalidMonth),
    }
}

/// The first instant of the month that `dt` falls in.
pub fn get_first_day_of_month(dt: &Timestamp) -> (r: Result<Timestamp, TimeError>)
    requires
        dt.wf(),
        valid_secs(dt.wall()),
    ensures
        match r {
            Ok(t) => t.wf() && t.wall() <= dt.wall() && exists|y: int, m: int, d: int|
                valid_date(y, m, d) && epoch_day(y, m, d) == dt.day() && t.wall()
                    == month_start_wall(y, m),
            Err(e) => e == TimeError::UnresolvedLocalTime,
        },
{
    let (y, m, d) = dt.date();
    let r = month_start(y, m);
    proof {
        lemma_fundamental_div_mod(dt.wall(), 86400);
        if r is Ok {
            assert(valid_date(y as int, m as int, d as int));
        }
    }
    r
}

/// Local midnight at the start of the last day of the month that `dt` falls
/// in.
pub fn get_last_day_of_month(dt: &Timestamp) -> (r: Result<Timestamp, TimeError>)
    requires
        dt.wf(),
        valid_secs(dt.wall()),
    ensures
        match r {
            Ok(t) => t.wf() && dt.day() * 86400 <= t.wall() && exists|y: int, m: int, d: int|
                valid_date(y, m, d) && epoch_day(y, m, d) == dt.day() && t.wall()
                    == month_end_wall(y, m) - 86399,
            Err(e) => e == TimeError::UnresolvedLocalTime,
        },
{
    let (y, m, d) = dt.date();
    let r = match Timestamp::from_wall(day_number(y, m, month_length(y, m)) * SECS_PER_DAY) {
        Some(t) => Ok(t),
        None => Err(TimeError::UnresolvedLocalTime),
    };
    proof {
        if r is Ok {
            assert(valid_date(y as int, m as int, d as int));
        }
    }
    r
}

/// The local wall-clock readings, in seconds past 1970-01-01T00:00:00, of
/// the first and the last whole second of the month that a `YYYY-MM` token
/// names.
pub fn month_wall_bounds(month: &str) -> (r: Result<(i64, i64), TimeError>)
    ensures
        match month_token(month@) {
            None => r == Err::<(i64, i64), TimeError>(TimeError::InvalidMonth),
            Some((y, m)) => r matches Ok((first, last)) && first == month_start_wall(y, m) && last
                == month_end_wall(y, m) && first < last,
        },
{
    match parse_month(month) {
        Some((y, m)) => {
            let last = day_number(y, m, month_length(y, m));
            Ok((day_number(y, m, 1) * SECS_PER_DAY, last * SECS_PER_DAY + (SECS_PER_DAY - 1)))
        },
        None => Err(TimeError::InvalidMonth),
    }
}

/// The first and the last instant of the month that a `YYYY-MM` token
/// names: local midnight on its first day, and the last nanosecond of
/// 23:59:59 on its last day.
pub fn get_month_boundaries(month: &str) -> (r: Result<(Timestamp, Timestamp), TimeError>)
    ensures
        match month_token(month@) {
            None => r == Err::<(Timestamp, Timestamp), TimeError>(TimeError::InvalidMonth),
            Some((y, m)) => match r {
                Ok((lo, hi)) => lo.wf() && hi.wf() && lo.wall() == month_start_wall(y, m)
                    && lo.nanos == 0 && hi.wall() == month_end_wall(y, m) && hi.nanos
                    == LAST_NANO,
                Err(e) => e == TimeError::UnresolvedLocalTime,
            },
        },
{
    let (first, last) = match month_wall_bounds(month) {
        Ok(bounds) => bounds,
        Err(e) => {
            return Err(e);
        },
    };
    match (Timestamp::from_wall(first), Timestamp::end_of_wall_second(last)) {
        (Some(lo), Some(hi)) => Ok((lo, hi)),
        _ => Err(TimeError::UnresolvedLocalTime),
    }
}

} // verus!
