//! The next-occurrence calculator: from a month, a day, an optional time of
//! day and a time zone to the next instant at which the event fires.
use vstd::prelude::*;
use crate::calendar::{
    LocalTime, add_months, canonical_zone, canonical_zone_name, local_instant, local_to_utc,
    utc_add_months, utc_year_of, whole_years_between, year_of_timestamp, years_between,
};

verus! {

/// Seconds in a day.
pub const DAY_SECS: i64 = 86_400;

/// Seconds in a common year of 365 days.
pub const COMMON_YEAR_SECS: i64 = 31_536_000;

/// Seconds in a leap year of 366 days.
pub const LEAP_YEAR_SECS: i64 = 31_622_400;

/// Seconds in a mean Gregorian year, used where no calendar year is known.
pub const MEAN_YEAR_SECS: i64 = 31_556_926;

/// The latest `now` after which an instant still exists: every `i64` but
/// the largest.
pub const LATEST_NOW: i64 = i64::MAX - 1;

/// Whole years beyond which calendar advancement is not attempted: twelve
/// times one more than this would not fit in a `u32` count of months.
pub const MAX_CATCHUP_YEARS: u32 = u32::MAX / 12 - 1;

/// Why a next occurrence could not be computed, or an input was refused.
#[derive(Clone, Copy, Debug, PartialEq, Eq, Structural)]
pub enum ValidationError {
    /// The month and day do not name a day of the year.
    InvalidDate,
    /// The time of day is not below 86 400 seconds.
    InvalidTimeOfDay,
    /// The time-zone database holds no zone of that name.
    UnknownTimezone,
    /// No zone was given and the group has no default.
    NoTimezone,
    /// The instant lies outside the range of the calendar.
    OutOfRange,
}

/// The errors of scheduling an event.
#[derive(Clone, Copy, Debug, PartialEq, Eq, Structural)]
pub enum ScheduleError {
    /// The input was refused before any schedule was touched.
    Validation(ValidationError),
    /// The local time is repeated or skipped by a clock change in the zone.
    InvalidLocalTime,
    /// The group has been set up already.
    AlreadySetUp,
}

/// Gregorian leap years.
pub open spec fn is_leap_year(y: int) -> bool {
    y % 4 == 0 && (y % 100 != 0 || y % 400 == 0)
}

/// The number of days of a month; February has 29, as some year's does.
pub open spec fn max_day(month: int) -> int {
    if month == 2 {
        29
    } else if month == 4 || month == 6 || month == 9 || month == 11 {
        30
    } else {
        31
    }
}

/// `month` and `day` name a day of some year.
pub open spec fn valid_month_day(month: int, day: int) -> bool {
    1 <= month <= 12 && 1 <= day <= max_day(month)
}

/// One step of the approximation: a leap year's length where the target
/// year (the one after the instant's year) is a leap year, a common year's
/// where it is not, a mean year's where the calendar cannot place the
/// instant.
pub open spec fn approximation_step(ts: int) -> int {
    match utc_year_of(ts) {
        Some(y) => if is_leap_year(y as int + 1) {
            LEAP_YEAR_SECS as int
        } else {
            COMMON_YEAR_SECS as int
        },
        None => MEAN_YEAR_SECS as int,
    }
}

/// The first instant after `now` reached from `ts` by approximation steps
/// (`ts` itself if it is already after `now`); a step that would pass the
/// largest `i64` ends at it.
pub open spec fn approximate_spec(ts: int, now: int) -> int
    decreases now - ts + LEAP_YEAR_SECS,
{
    if ts > now {
        ts
    } else if ts + approximation_step(ts) > i64::MAX {
        i64::MAX as int
    } else {
        approximate_spec(ts + approximation_step(ts), now)
    }
}

/// The next occurrence after `now` of an event last due at `base`: `base`
/// itself if it is still ahead, else `base` advanced by whole calendar years
/// in one step, or by the approximation where the calendar cannot do that.
pub open spec fn next_after_spec(base: int, now: int) -> int {
    if base > now {
        base
    } else {
        let years: int = match whole_years_between(base, now) {
            Some(y) => y as int,
            None => 0,
        };
        if years < MAX_CATCHUP_YEARS {
            match utc_add_months(base, 12 * (years + 1)) {
                Some(t) => if t > now {
                    t as int
                } else {
                    approximate_spec(t as int, now)
                },
                None => approximate_spec(base, now),
            }
        } else {
            approximate_spec(base, now)
        }
    }
}

/// The latest leap year among the eight years before `y`, searching from
/// `y - k` downwards.
pub open spec fn prior_leap_from(y: int, k: int) -> Option<int>
    decreases 9 - k,
{
    if k > 8 || k < 1 {
        None
    } else if is_leap_year(y - k) {
        Some(y - k)
    } else {
        prior_leap_from(y, k + 1)
    }
}

/// The latest leap year before `y`, within eight years, where the search
/// stays within the range of `i32`.
pub open spec fn prior_leap(y: int) -> Option<int> {
    if y < i32::MIN + 8 {
        None
    } else {
        prior_leap_from(y, 1)
    }
}

/// The result of a local-time lookup for a computation that has not yet
/// failed.
pub open spec fn resolved(l: LocalTime) -> Result<int, ScheduleError> {
    match l {
        LocalTime::Single(x) => Ok(x as int),
        LocalTime::Ambiguous => Err(ScheduleError::InvalidLocalTime),
        LocalTime::Skipped => Err(ScheduleError::InvalidLocalTime),
        LocalTime::Unresolvable => Err(ScheduleError::Validation(ValidationError::OutOfRange)),
    }
}

/// The number of days of month `m` of year `y`.
pub open spec fn month_days(y: int, m: int) -> int {
    if m == 2 {
        if is_leap_year(y) {
            29
        } else {
            28
        }
    } else {
        max_day(m)
    }
}

/// The day after `y`/`m`/`d`, as year, month and day.
pub open spec fn following_day(y: int, m: int, d: int) -> (int, int, int) {
    if d < month_days(y, m) {
        (y, m, d + 1)
    } else if m < 12 {
        (y, m + 1, 1)
    } else {
        (y + 1, 1, 1)
    }
}

/// The end of the local day `y`/`m`/`d` in `zone`, on which the local time
/// `secs` falls at instant `x`: the instant of the next local midnight, or
/// `x` plus the rest of a 24-hour day where that midnight has no single
/// instant.
pub open spec fn day_end(zone: Seq<char>, y: int, m: int, d: int, x: int, secs: int) -> int {
    let (ny, nm, nd) = following_day(y, m, d);
    if ny <= i32::MAX {
        match local_instant(zone, ny, nm, nd, 0) {
            LocalTime::Single(e) => e as int,
            _ => x + DAY_SECS - secs,
        }
    } else {
        x + DAY_SECS - secs
    }
}

/// The occurrence of a day in `now`'s year, at instant `x`: the instant
/// itself while its local day (ending at `end`) has not ended, else the next
/// occurrence after `now`.
pub open spec fn this_year_or_next(x: int, end: int, now: int) -> int {
    if x > now || now < end {
        x
    } else {
        next_after_spec(x, now)
    }
}

/// The day's occurrence in `now`'s year has passed but its local day has
/// not ended: it is kept so that it still fires.
pub open spec fn kept_for_today(
    month: int,
    day: int,
    time_of_day: Option<u32>,
    timezone: Seq<char>,
    now: int,
    r: int,
) -> bool {
    let secs: int = match time_of_day {
        Some(s) => s as int,
        None => 0,
    };
    match canonical_zone(timezone) {
        Some(zone) => match utc_year_of(now) {
            Some(year) => match local_instant(zone, year as int, month, day, secs) {
                LocalTime::Single(x) => r == x && x <= now && now < day_end(
                    zone,
                    year as int,
                    month,
                    day,
                    x as int,
                    secs,
                ),
                _ => false,
            },
            None => false,
        },
        None => false,
    }
}

/// What [`compute_next_occurrence`] returns.
pub open spec fn next_occurrence_spec(
    month: int,
    day: int,
    time_of_day: Option<u32>,
    timezone: Seq<char>,
    now: int,
) -> Result<int, ScheduleError> {
    let secs: int = match time_of_day {
        Some(s) => s as int,
        None => 0,
    };
    if !valid_month_day(month, day) {
        Err(ScheduleError::Validation(ValidationError::InvalidDate))
    } else if secs >= DAY_SECS {
        Err(ScheduleError::Validation(ValidationError::InvalidTimeOfDay))
    } else {
        match canonical_zone(timezone) {
            None => Err(ScheduleError::Validation(ValidationError::UnknownTimezone)),
            Some(zone) => match utc_year_of(now) {
                None => Err(ScheduleError::Validation(ValidationError::OutOfRange)),
                Some(year) => if month == 2 && day == 29 && !is_leap_year(year as int) {
                    match prior_leap(year as int) {
                        None => Err(ScheduleError::Validation(ValidationError::OutOfRange)),
                        Some(ly) => match resolved(local_instant(zone, ly, 2, 29, secs)) {
                            Ok(x) => Ok(approximate_spec(x, now)),
                            Err(e) => Err(e),
                        },
                    }
                } else {
                    match resolved(local_instant(zone, year as int, month, day, secs)) {
                        Ok(x) => Ok(this_year_or_next(x, day_end(zone, year as int, month, day, x, secs), now)),
                        Err(e) => Err(e),
                    }
                },
            },
        }
    }
}

/// Whether `y` is a Gregorian leap year.
pub fn leap_year(y: i32) -> (r: bool)
    ensures
        r == is_leap_year(y as int),
{
    // Shifting by a multiple of 400 keeps every residue used below and
    // makes the value non-negative.
    let p: i64 = y as i64 + 2_147_484_000;
    assert(p % 4 == (y as int) % 4 && p % 100 == (y as int) % 100 && p % 400 == (y as int) % 400);
    p % 4 == 0 && (p % 100 != 0 || p % 400 == 0)
}

fn next_year_is_leap(y: i32) -> (r: bool)
    ensures
        r == is_leap_year(y as int + 1),
{
    // Shifting by a multiple of 400 keeps every residue used below and
    // makes the value non-negative.
    let p: i64 = y as i64 + 1 + 2_147_484_000;
    assert(p % 4 == (y + 1) % 4 && p % 100 == (y + 1) % 100 && p % 400 == (y + 1) % 400);
    p % 4 == 0 && (p % 100 != 0 || p % 400 == 0)
}

/// Advances `timestamp` by approximate years (366 days where the year it
/// moves into is a leap year, 365 where it is not) until it lies after
/// `now`; a step that would pass the largest `i64` ends at it.
pub fn approximate_next_birthday(timestamp: i64, now: i64) -> (r: i64)
    requires
        now <= LATEST_NOW,
    ensures
        r == approximate_spec(timestamp as int, now as int),
        r > now,
{
    let mut next = timestamp;
    while next <= now
        invariant
            now <= LATEST_NOW,
            approximate_spec(next as int, now as int) == approximate_spec(timestamp as int, now as int),
        decreases now - next + LEAP_YEAR_SECS,
    {
        let step: i64 = match year_of_timestamp(next) {
            Some(y) => if next_year_is_leap(y) {
                LEAP_YEAR_SECS
            } else {
                COMMON_YEAR_SECS
            },
            None => MEAN_YEAR_SECS,
        };
        if next > i64::MAX - step {
            return i64::MAX;
        }
        next = next + step;
    }
    next
}

/// The next occurrence after `now` of an event last due at `birthday`,
/// reached in a single calendar step however many years were missed.
pub fn calc_next_birthday(birthday: i64, now: i64) -> (r: i64)
    requires
        now <= LATEST_NOW,
    ensures
        r == next_after_spec(birthday as int, now as int),
        r > now,
{
    if birthday > now {
        return birthday;
    }
    let years: u32 = match years_between(birthday, now) {
        Some(y) => y,
        None => 0,
    };
    if years < MAX_CATCHUP_YEARS {
        match add_months(birthday, 12 * (years + 1)) {
            Some(t) => if t > now {
                t
            } else {
                approximate_next_birthday(t, now)
            },
            None => approximate_next_birthday(birthday, now),
        }
    } else {
        approximate_next_birthday(birthday, now)
    }
}

fn latest_leap_year_before(y: i32) -> (r: Option<i32>)
    ensures
        match r {
            Some(l) => prior_leap(y as int) == Some(l as int),
            None => prior_leap(y as int) is None,
        },
{
    if y < i32::MIN + 8 {
        return None;
    }
    let mut k: i32 = 1;
    while k <= 8
        invariant
            1 <= k <= 9,
            y >= i32::MIN + 8,
            prior_leap(y as int) == prior_leap_from(y as int, k as int),
        decreases 9 - k,
    {
        if leap_year(y - k) {
            return Some(y - k);
        }
        k = k + 1;
    }
    None
}

fn end_of_local_day(zone: &str, y: i32, m: u32, d: u32, x: i64, secs: u32) -> (r: i128)
    requires
        valid_month_day(m as int, d as int),
        m != 2 || d != 29 || is_leap_year(y as int),
        secs < DAY_SECS,
    ensures
        r == day_end(zone@, y as int, m as int, d as int, x as int, secs as int),
{
    let fallback: i128 = x as i128 + 86_400 - secs as i128;
    let days: u32 = if m == 2 {
        if leap_year(y) {
            29
        } else {
            28
        }
    } else if m == 4 || m == 6 || m == 9 || m == 11 {
        30
    } else {
        31
    };
    let (ny, nm, nd): (i32, u32, u32) = if d < days {
        (y, m, d + 1)
    } else if m < 12 {
        (y, m + 1, 1)
    } else if y < i32::MAX {
        (y + 1, 1, 1)
    } else {
        return fallback;
    };
    match local_to_utc(zone, ny, nm, nd, 0) {
        LocalTime::Single(e) => e as i128,
        _ => fallback,
    }
}

fn resolve(l: LocalTime) -> (r: Result<i64, ScheduleError>)
    ensures
        match r {
            Ok(x) => resolved(l) == Ok::<int, ScheduleError>(x as int),
            Err(e) => resolved(l) == Err::<int, ScheduleError>(e),
        },
{
    match l {
        LocalTime::Single(x) => Ok(x),
        LocalTime::Ambiguous => Err(ScheduleError::InvalidLocalTime),
        LocalTime::Skipped => Err(ScheduleError::InvalidLocalTime),
        LocalTime::Unresolvable => Err(ScheduleError::Validation(ValidationError::OutOfRange)),
    }
}

/// The next occurrence of the day `month`/`day` (at `time_of_day` seconds
/// after local midnight, or at midnight) in `timezone`, seen at `now`.
///
/// The day is placed in `now`'s year. While its local day has not ended it
/// is returned as it is, even if already past; otherwise it is advanced by
/// whole years to the first occurrence after `now`. A February 29 in a
/// common year starts from the latest February 29 and is advanced by the
/// approximation.
pub fn compute_next_occurrence(
    month: u32,
    day: u32,
    time_of_day: Option<u32>,
    timezone: &str,
    now: i64,
) -> (r: Result<i64, ScheduleError>)
    requires
        now <= LATEST_NOW,
    ensures
        match r {
            Ok(x) => next_occurrence_spec(month as int, day as int, time_of_day, timezone@, now as int)
                == Ok::<int, ScheduleError>(x as int),
            Err(e) => next_occurrence_spec(month as int, day as int, time_of_day, timezone@, now as int)
                == Err::<int, ScheduleError>(e),
        },
{
    let secs: u32 = match time_of_day {
        Some(s) => s,
        None => 0,
    };
    let max: u32 = if month == 2 {
        29
    } else if month == 4 || month == 6 || month == 9 || month == 11 {
        30
    } else {
        31
    };
    if month < 1 || month > 12 || day < 1 || day > max {
        return Err(ScheduleError::Validation(ValidationError::InvalidDate));
    }
    if secs >= 86_400 {
        return Err(ScheduleError::Validation(ValidationError::InvalidTimeOfDay));
    }
    let zone = match canonical_zone_name(timezone) {
        Some(z) => z,
        None => return Err(ScheduleError::Validation(ValidationError::UnknownTimezone)),
    };
    let year = match year_of_timestamp(now) {
        Some(y) => y,
        None => return Err(ScheduleError::Validation(ValidationError::OutOfRange)),
    };
    if month == 2 && day == 29 && !leap_year(year) {
        let ly = match latest_leap_year_before(year) {
            Some(l) => l,
            None => return Err(ScheduleError::Validation(ValidationError::OutOfRange)),
        };
        let x = resolve(local_to_utc(zone.as_str(), ly, 2, 29, secs))?;
        return Ok(approximate_next_birthday(x, now));
    }
    let x = resolve(local_to_utc(zone.as_str(), year, month, day, secs))?;
    if x > now || (now as i128) < end_of_local_day(zone.as_str(), year, month, day, x, secs) {
        Ok(x)
    } else {
        Ok(calc_next_birthday(x, now))
    }
}

} // verus!
