//! Instants, durations and calendar arithmetic.

use std::time::SystemTime;

use chrono::{DateTime, Datelike, Local, LocalResult, NaiveDateTime, TimeZone};
use vstd::arithmetic::div_mod::{lemma_fundamental_div_mod, lemma_fundamental_div_mod_converse_div};
use vstd::prelude::*;

use crate::calendar::{day_number, epoch_day, month_length, valid_date, MAX_YEAR, MIN_YEAR};

verus! {

/// Seconds from the Unix epoch to the first instant of the supported
/// calendar, -262143-01-01T00:00:00 (chrono's `NaiveDate::MIN`).
pub const MIN_SECS: i64 = -8_334_601_228_800;

/// Seconds from the Unix epoch to the last whole second of the supported
/// calendar, 262142-12-31T23:59:59 (chrono's `NaiveDate::MAX`).
pub const MAX_SECS: i64 = 8_210_266_876_799;

/// Seconds in a calendar day.
pub const SECS_PER_DAY: i64 = 86_400;

/// Nanoseconds in a second.
pub const NANOS_PER_SEC: u32 = 1_000_000_000;

/// The last nanosecond of a second.
pub const LAST_NANO: u32 = 999_999_999;

/// Whole days added to a wall-clock value before dividing, so that the
/// division works on non-negative numbers.
const DAY_SHIFT: i64 = 134_217_728;

/// An instant with the local UTC offset that was in force at it.
///
/// `secs` counts whole seconds since 1970-01-01T00:00:00 UTC and `nanos`
/// the nanoseconds after them; `offset` is the local time's distance east
/// of UTC, in seconds. The local wall clock reads `secs + offset` whole
/// seconds since 1970-01-01T00:00:00.
#[derive(Clone, Copy, Debug, PartialEq, Eq, Structural)]
pub struct Timestamp {
    pub secs: i64,
    pub nanos: u32,
    pub offset: i32,
}

/// Whether a UTC offset in seconds is one that a time zone can have.
pub open spec fn valid_offset(offset: int) -> bool {
    -86_400 < offset < 86_400
}

/// Whether an instant in seconds since the epoch is representable.
pub open spec fn valid_secs(secs: int) -> bool {
    MIN_SECS <= secs <= MAX_SECS
}

/// The calendar day (days since 1970-01-01) that a wall-clock reading,
/// in seconds since 1970-01-01T00:00:00, falls on.
pub open spec fn day_of_wall(wall: int) -> int {
    wall / (SECS_PER_DAY as int)
}

impl Timestamp {
    pub open spec fn wf(self) -> bool {
        valid_secs(self.secs as int) && self.nanos < NANOS_PER_SEC && valid_offset(
            self.offset as int,
        )
    }

    /// Nanoseconds since 1970-01-01T00:00:00 UTC.
    pub open spec fn instant(self) -> int {
        self.secs * 1_000_000_000 + self.nanos
    }

    /// The local wall-clock reading, in seconds since 1970-01-01T00:00:00.
    pub open spec fn wall(self) -> int {
        self.secs + self.offset
    }

    /// The local calendar day of this instant, in days since 1970-01-01.
    pub open spec fn day(self) -> int {
        day_of_wall(self.wall())
    }

    /// Nanoseconds from `self` to `later`; negative when `later` comes
    /// first.
    pub open spec fn nanos_until(self, later: Timestamp) -> int {
        later.instant() - self.instant()
    }

    /// Whether the instant and its offset are representable.
    pub fn is_valid(&self) -> (r: bool)
        ensures
            r == self.wf(),
    {
        MIN_SECS <= self.secs && self.secs <= MAX_SECS && self.nanos < NANOS_PER_SEC && -86_400
            < self.offset && self.offset < 86_400
    }

    /// Whether `self` comes strictly before `other`.
    pub fn is_before(&self, other: &Timestamp) -> (r: bool)
        requires
            self.wf(),
            other.wf(),
        ensures
            r == (self.instant() < other.instant()),
    {
        self.secs < other.secs || (self.secs == other.secs && self.nanos < other.nanos)
    }

    /// The time from `self` to `later`.
    pub fn until(&self, later: &Timestamp) -> (r: Duration)
        requires
            self.wf(),
            later.wf(),
        ensures
            r.wf(),
            r.total() == self.nanos_until(*later),
            MIN_SECS - MAX_SECS - 1 <= r.secs <= MAX_SECS - MIN_SECS,
    {
        let ds: i64 = later.secs - self.secs;
        if later.nanos >= self.nanos {
            Duration { secs: ds as i128, nanos: later.nanos - self.nanos }
        } else {
            Duration { secs: ds as i128 - 1, nanos: later.nanos + (NANOS_PER_SEC - self.nanos) }
        }
    }

    /// The local calendar day of this instant, in days since 1970-01-01.
    pub fn local_day(&self) -> (r: i64)
        requires
            self.wf(),
        ensures
            r == self.day(),
    {
        let wall: i64 = self.secs + self.offset as i64;
        let shifted: i64 = wall + DAY_SHIFT * SECS_PER_DAY;
        let q: i64 = shifted / SECS_PER_DAY;
        proof {
            let w = wall as int;
            let d = SECS_PER_DAY as int;
            lemma_fundamental_div_mod(w, d);
            lemma_fundamental_div_mod_converse_div(
                w + DAY_SHIFT * d,
                d,
                w / d + DAY_SHIFT,
                w % d,
            );
        }
        q - DAY_SHIFT
    }
}

/// A signed length of time: `secs` whole seconds, rounded down, and
/// `nanos` nanoseconds after them.
#[derive(Clone, Copy, Debug, PartialEq, Eq, Structural)]
pub struct Duration {
    pub secs: i128,
    pub nanos: u32,
}

/// The whole seconds in `n` nanoseconds, truncated toward zero.
pub open spec fn whole_seconds(n: int) -> int {
    if n >= 0 {
        n / 1_000_000_000
    } else {
        -((-n) / 1_000_000_000)
    }
}

impl Duration {
    pub open spec fn wf(self) -> bool {
        self.nanos < NANOS_PER_SEC
    }

    /// The length in nanoseconds.
    pub open spec fn total(self) -> int {
        self.secs * 1_000_000_000 + self.nanos
    }

    /// No time at all.
    pub fn zero() -> (r: Duration)
        ensures
            r.wf(),
            r.total() == 0,
    {
        Duration { secs: 0, nanos: 0 }
    }

    /// The sum of two lengths.
    pub fn add(&self, other: &Duration) -> (r: Duration)
        requires
            self.wf(),
            other.wf(),
            i128::MIN <= self.secs + other.secs,
            self.secs + other.secs + 1 <= i128::MAX,
        ensures
            r.wf(),
            r.total() == self.total() + other.total(),
            r.secs == self.secs + other.secs || r.secs == self.secs + other.secs + 1,
    {
        let n: u32 = self.nanos + other.nanos;
        if n >= NANOS_PER_SEC {
            Duration { secs: self.secs + other.secs + 1, nanos: n - NANOS_PER_SEC }
        } else {
            Duration { secs: self.secs + other.secs, nanos: n }
        }
    }

    /// The whole seconds in this length, truncated toward zero.
    pub fn num_seconds(&self) -> (r: i128)
        requires
            self.wf(),
        ensures
            r == whole_seconds(self.total()),
    {
        proof {
            lemma_whole_seconds(self.secs as int, self.nanos as int);
        }
        if self.secs < 0 && self.nanos > 0 {
            self.secs + 1
        } else {
            self.secs
        }
    }
}

/// The whole seconds in `ds` seconds and `dn` nanoseconds, truncated
/// toward zero, for a nanosecond part within a second either way.
proof fn lemma_whole_seconds(ds: int, dn: int)
    requires
        -1_000_000_000 < dn < 1_000_000_000,
    ensures
        ({
            let d = ds * 1_000_000_000 + dn;
            let t = if d >= 0 {
                d / 1_000_000_000
            } else {
                -((-d) / 1_000_000_000)
            };
            t == if ds > 0 && dn < 0 {
                ds - 1
            } else if ds < 0 && dn > 0 {
                ds + 1
            } else {
                ds
            }
        }),
{
    let n = 1_000_000_000int;
    let d = ds * n + dn;
    if ds > 0 && dn < 0 {
        lemma_fundamental_div_mod_converse_div(d, n, ds - 1, n + dn);
    } else if ds < 0 && dn > 0 {
        lemma_fundamental_div_mod_converse_div(-d, n, -ds - 1, n - dn);
    } else if ds >= 0 && dn >= 0 {
        lemma_fundamental_div_mod_converse_div(d, n, ds, dn);
    } else if ds == 0 {
        lemma_fundamental_div_mod_converse_div(-d, n, 0, -dn);
    } else {
        lemma_fundamental_div_mod_converse_div(-d, n, -ds, -dn);
    }
}

/// The time elapsed from `dt` to `now`; negative when `now` comes first.
pub fn time_from_now(dt: &Timestamp, now: &Timestamp) -> (r: Duration)
    requires
        dt.wf(),
        now.wf(),
    ensures
        r.wf(),
        r.total() == dt.nanos_until(*now),
{
    dt.until(now)
}

/// Whether two instants fall on the same local calendar day.
pub fn is_same_day(a: &Timestamp, b: &Timestamp) -> (r: bool)
    requires
        a.wf(),
        b.wf(),
    ensures
        r == (a.day() == b.day()),
{
    a.local_day() == b.local_day()
}


/// Why a time could not be worked out.
#[derive(Clone, Copy, Debug, PartialEq, Eq, Structural)]
pub enum TimeError {
    /// The month is not written as `YYYY-MM` with a month from 1 to 12.
    InvalidMonth,
    /// A stored timestamp does not have the stored layout.
    InvalidTimestamp,
    /// The local wall-clock time does not name exactly one instant (it
    /// falls into a gap or an overlap of the local time zone).
    UnresolvedLocalTime,
}

/// What the stored layout `%Y-%m-%d %H:%M:%S%.f` reads from a text: whole
/// seconds since the epoch of a clock without offset, and nanoseconds
/// after them (a leap second gives a billion or more).
pub uninterp spec fn naive_text_instant(s: Seq<char>) -> Option<(i64, u32)>;

/// Relies on chrono's `NaiveDateTime::parse_from_str` with the layout
/// `%Y-%m-%d %H:%M:%S%.f`, and on `and_utc()` with `timestamp()` and
/// `timestamp_subsec_nanos()` for what it read. Every value that chrono
/// represents lies in the supported calendar, and its nanoseconds stay
/// below two billion.
#[verifier::external_body]
fn parse_naive_instant(s: &str) -> (r: Option<(i64, u32)>)
    ensures
        r == naive_text_instant(s@),
        r matches Some((v, n)) ==> valid_secs(v as int) && n < 2_000_000_000,
{
    match NaiveDateTime::parse_from_str(s, "%Y-%m-%d %H:%M:%S%.f") {
        Ok(dt) => Some((dt.and_utc().timestamp(), dt.and_utc().timestamp_subsec_nanos())),
        Err(_) => None,
    }
}

/// Relies on chrono's `Local::offset_from_utc_datetime`: the local time
/// zone's offset at an instant, a `FixedOffset`, which is less than a day.
#[verifier::external_body]
fn local_offset_at(secs: i64) -> (r: i32)
    requires
        valid_secs(secs as int),
    ensures
        valid_offset(r as int),
{
    let utc = DateTime::from_timestamp(secs, 0).unwrap();
    Local.offset_from_utc_datetime(&utc.naive_utc()).local_minus_utc()
}

/// Relies on chrono's `Local::from_local_datetime`: the one instant at which
/// the local wall clock reads `wall` seconds past 1970-01-01T00:00:00, with
/// the offset in force then; none where the reading is out of range, falls
/// into a gap, or names two instants.
#[verifier::external_body]
fn resolve_wall(wall: i64) -> (r: Option<(i64, i32)>)
    ensures
        r matches Some((secs, off)) ==> secs + off == wall && valid_secs(secs as int)
            && valid_offset(off as int),
{
    let naive = DateTime::from_timestamp(wall, 0)?.naive_utc();
    match Local.from_local_datetime(&naive) {
        LocalResult::Single(dt) => Some((dt.timestamp(), dt.offset().local_minus_utc())),
        LocalResult::Ambiguous(_, _) => None,
        LocalResult::None => None,
    }
}

/// Relies on chrono's `DateTime::from_timestamp` and its `Datelike` year,
/// month and day: the calendar date that a reading in seconds past
/// 1970-01-01T00:00:00 falls on.
#[verifier::external_body]
fn civil_date_of(wall: i64) -> (r: (i32, u32, u32))
    requires
        valid_secs(wall as int),
    ensures
        valid_date(r.0 as int, r.1 as int, r.2 as int),
        epoch_day(r.0 as int, r.1 as int, r.2 as int) == day_of_wall(wall as int),
{
    let date = DateTime::from_timestamp(wall, 0).unwrap().date_naive();
    (date.year(), date.month(), date.day())
}

/// Relies on chrono's `From<SystemTime> for DateTime<Local>`, applied to the
/// system clock's reading: the current instant, as whole seconds and the
/// nanoseconds after them, and the local offset in force at it. chrono
/// reads a clock before 1970 too; it panics only on a reading outside the
/// years it represents, which no precondition here can rule out.
#[verifier::external_body]
fn local_now() -> (r: (i64, u32, i32))
    ensures
        valid_secs(r.0 as int),
        r.1 < 2_000_000_000,
        valid_offset(r.2 as int),
{
    let now: DateTime<Local> = DateTime::from(SystemTime::now());
    (now.timestamp(), now.timestamp_subsec_nanos(), now.offset().local_minus_utc())
}

/// Nanoseconds within a second; a leap second's count reads as the last
/// nanosecond of the second before it.
pub open spec fn within_second(nanos: int) -> int {
    if nanos < 1_000_000_000 {
        nanos
    } else {
        LAST_NANO as int
    }
}

fn clamp_nanos(nanos: u32) -> (r: u32)
    ensures
        r == within_second(nanos as int),
{
    if nanos < NANOS_PER_SEC {
        nanos
    } else {
        LAST_NANO
    }
}

impl Timestamp {
    /// The current instant.
    pub fn now() -> (r: Timestamp)
        ensures
            r.wf(),
    {
        let (secs, nanos, offset) = local_now();
        Timestamp { secs, nanos: clamp_nanos(nanos), offset }
    }

    /// The instant `secs` seconds and `nanos` nanoseconds after the epoch,
    /// with the local offset in force at it.
    pub fn from_utc(secs: i64, nanos: u32) -> (r: Timestamp)
        requires
            valid_secs(secs as int),
            nanos < NANOS_PER_SEC,
        ensures
            r.secs == secs,
            r.nanos == nanos,
            r.wf(),
    {
        Timestamp { secs, nanos, offset: local_offset_at(secs) }
    }

    /// The instant at which the local wall clock reads `wall` seconds past
    /// 1970-01-01T00:00:00, where there is exactly one.
    pub fn from_wall(wall: i64) -> (r: Option<Timestamp>)
        ensures
            r matches Some(t) ==> t.wf() && t.wall() == wall && t.nanos == 0,
    {
        match resolve_wall(wall) {
            Some((secs, offset)) => Some(Timestamp { secs, nanos: 0, offset }),
            None => None,
        }
    }

    /// The last nanosecond of the whole second at which the local wall clock
    /// reads `wall`, where that reading names exactly one instant.
    pub fn end_of_wall_second(wall: i64) -> (r: Option<Timestamp>)
        ensures
            r matches Some(t) ==> t.wf() && t.wall() == wall && t.nanos == LAST_NANO,
    {
        match resolve_wall(wall) {
            Some((secs, offset)) => Some(Timestamp { secs, nanos: LAST_NANO, offset }),
            None => None,
        }
    }

    /// The instant at which the local wall clock shows the given date and
    /// time of day; none for an invalid date or time, or where the time
    /// zone gives no single instant.
    pub fn from_ymd_hms(y: i32, m: u32, d: u32, h: u32, min: u32, s: u32) -> (r: Option<
        Timestamp,
    >)
        ensures
            !(valid_date(y as int, m as int, d as int) && h < 24 && min < 60 && s < 60) ==> r
                is None,
            r matches Some(t) ==> t.wf() && t.wall() == epoch_day(y as int, m as int, d as int)
                * 86400 + h * 3600 + min * 60 + s,
    {
        if y < MIN_YEAR || y > MAX_YEAR || m < 1 || m > 12 || d < 1 || d > month_length(y, m)
            || h >= 24 || min >= 60 || s >= 60 {
            return None;
        }
        let day = day_number(y, m, d);
        Timestamp::from_wall(day * SECS_PER_DAY + (h * 3600 + min * 60 + s) as i64)
    }

    /// The local calendar date of this instant, as year, month and day.
    pub fn date(&self) -> (r: (i32, u32, u32))
        requires
            self.wf(),
            valid_secs(self.wall()),
        ensures
            valid_date(r.0 as int, r.1 as int, r.2 as int),
            epoch_day(r.0 as int, r.1 as int, r.2 as int) == self.day(),
    {
        civil_date_of(self.secs + self.offset as i64)
    }
}

/// The first instant of the local calendar day of `dt`, at 00:00:00.
pub fn day_begin(dt: &Timestamp) -> (r: Result<Timestamp, TimeError>)
    requires
        dt.wf(),
    ensures
        r matches Ok(b) ==> b.wf() && b.wall() == dt.day() * 86400 && b.nanos == 0,
        r matches Err(e) ==> e == TimeError::UnresolvedLocalTime,
{
    let day = dt.local_day();
    match Timestamp::from_wall(day * SECS_PER_DAY) {
        Some(b) => Ok(b),
        None => Err(TimeError::UnresolvedLocalTime),
    }
}

/// The last instant of the local calendar day of `dt`: its last
/// nanosecond, at 23:59:59.
pub fn day_end(dt: &Timestamp) -> (r: Result<Timestamp, TimeError>)
    requires
        dt.wf(),
    ensures
        r matches Ok(b) ==> b.wf() && b.wall() == dt.day() * 86400 + 86399 && b.nanos
            == LAST_NANO,
        r matches Err(e) ==> e == TimeError::UnresolvedLocalTime,
{
    let day = dt.local_day();
    match Timestamp::end_of_wall_second(day * SECS_PER_DAY + (SECS_PER_DAY - 1)) {
        Some(b) => Ok(b),
        None => Err(TimeError::UnresolvedLocalTime),
    }
}


/// The UTC offset marker that stored timestamps may carry.
pub open spec fn utc_marker() -> Seq<char> {
    seq!['+', '0', '0', ':', '0', '0']
}

/// `s` with every occurrence of the marker `+00:00` taken out, scanning
/// from the left.
pub open spec fn without_utc_marker(s: Seq<char>) -> Seq<char>
    decreases s.len(),
{
    if s.len() == 0 {
        s
    } else if s.len() >= 6 && s.take(6) == utc_marker() {
        without_utc_marker(s.skip(6))
    } else {
        seq![s[0]] + without_utc_marker(s.skip(1))
    }
}

/// Takes every `+00:00` out of `s`.
pub fn strip_utc_marker(s: &str) -> (r: String)
    ensures
        r@ == without_utc_marker(s@),
{
    let n = s.unicode_len();
    let mut out = String::new();
    let mut i: usize = 0;
    proof {
        assert(s@.skip(0) =~= s@);
        assert(out@ + without_utc_marker(s@) =~= without_utc_marker(s@));
    }
    while i < n
        invariant
            i <= n,
            n == s@.len(),
            out@ + without_utc_marker(s@.skip(i as int)) == without_utc_marker(s@),
        decreases n - i,
    {
        let ghost rest = s@.skip(i as int);
        let ghost before = out@;
        if n >= 6 && i <= n - 6 && s.get_char(i) == '+' && s.get_char(i + 1) == '0' && s.get_char(i + 2)
            == '0' && s.get_char(i + 3) == ':' && s.get_char(i + 4) == '0' && s.get_char(i + 5)
            == '0' {
            proof {
                assert(rest.take(6) =~= utc_marker());
                assert(rest.skip(6) =~= s@.skip(i + 6));
            }
            i = i + 6;
        } else {
            proof {
                assert(rest.skip(1) =~= s@.skip(i + 1));
                if rest.len() >= 6 {
                    assert(rest.take(6)[0] == s@[i as int]);
                    assert(rest.take(6)[1] == s@[i + 1]);
                    assert(rest.take(6)[2] == s@[i + 2]);
                    assert(rest.take(6)[3] == s@[i + 3]);
                    assert(rest.take(6)[4] == s@[i + 4]);
                    assert(rest.take(6)[5] == s@[i + 5]);
                    assert(rest.take(6) != utc_marker());
                }
            }
            out.append(s.substring_char(i, i + 1));
            proof {
                assert(out@ =~= before + seq![s@[i as int]]);
                assert(before + without_utc_marker(rest) == without_utc_marker(s@));
                assert(without_utc_marker(rest) =~= seq![s@[i as int]] + without_utc_marker(s@.skip(i + 1)));
                assert(out@ + without_utc_marker(s@.skip(i + 1)) =~= without_utc_marker(s@));
            }
            i = i + 1;
        }
    }
    proof {
        assert(s@.skip(n as int).len() == 0);
        assert(out@ =~= without_utc_marker(s@));
    }
    out
}

/// Whether `t` is the instant that the stored text `text` reads as.
pub open spec fn reads_as(text: Seq<char>, t: Timestamp) -> bool {
    naive_text_instant(without_utc_marker(text)) matches Some((v, n)) && t.secs == v && t.nanos
        == within_second(n as int)
}

/// Reads a stored timestamp: `YYYY-MM-DD HH:MM:SS[.fraction]`, possibly
/// with `+00:00` after it. The reading is taken as a UTC instant and paired
/// with the local offset in force at it; a leap second reads as the last
/// nanosecond of the second before it.
pub fn str_to_datetime(s: &str) -> (r: Result<Timestamp, TimeError>)
    ensures
        match naive_text_instant(without_utc_marker(s@)) {
            Some((v, n)) => r matches Ok(t) && t.secs == v && t.nanos == within_second(n as int)
                && t.wf(),
            None => r == Err::<Timestamp, TimeError>(TimeError::InvalidTimestamp),
        },
{
    let text = strip_utc_marker(s);
    match parse_naive_instant(text.as_str()) {
        Some((secs, nanos)) => Ok(Timestamp::from_utc(secs, clamp_nanos(nanos))),
        None => Err(TimeError::InvalidTimestamp),
    }
}

} // verus!
