//! Calendar and time-zone arithmetic, done by chrono and chrono-tz on plain
//! values: instants are whole seconds since the Unix epoch (UTC).
use vstd::prelude::*;
use chrono::{DateTime, Datelike, LocalResult, Months, NaiveDate, NaiveTime, Utc};
use chrono_tz::Tz;

verus! {

/// How a local date and time in a zone maps to an instant.
#[derive(Clone, Copy, Debug, PartialEq, Eq, Structural)]
pub enum LocalTime {
    /// Exactly one instant.
    Single(i64),
    /// Two instants (the local time is repeated by a clock change).
    Ambiguous,
    /// No instant: the local time is skipped by a clock change, or the
    /// zone's offset moves it out of the calendar's range.
    Skipped,
    /// The zone is unknown or the date cannot be represented.
    Unresolvable,
}

/// The UTC calendar year of an instant, where chrono can represent it.
pub uninterp spec fn utc_year_of(ts: int) -> Option<i32>;

/// The number of whole calendar years from `base` to `now`.
pub uninterp spec fn whole_years_between(base: int, now: int) -> Option<u32>;

/// The instant `months` calendar months after `ts`.
pub uninterp spec fn utc_add_months(ts: int, months: int) -> Option<i64>;

/// The canonical name of the time zone that `name` denotes, ignoring case.
pub uninterp spec fn canonical_zone(name: Seq<char>) -> Option<Seq<char>>;

/// The instant at which a local date and time of day occurs in a zone.
pub uninterp spec fn local_instant(zone: Seq<char>, year: int, month: int, day: int, secs: int) -> LocalTime;

/// Relies on chrono's `DateTime::<Utc>::from_timestamp` and `Datelike::year`:
/// the UTC year of the instant, or nothing where it is out of chrono's range.
#[verifier::external_body]
pub(crate) fn year_of_timestamp(ts: i64) -> (r: Option<i32>)
    ensures
        r == utc_year_of(ts as int),
{
    DateTime::<Utc>::from_timestamp(ts, 0).map(|d| d.year())
}

/// Relies on chrono's `DateTime::years_since`: the whole years from `base`
/// to `now`, or nothing where `base` is later or either is out of range.
#[verifier::external_body]
pub(crate) fn years_between(base: i64, now: i64) -> (r: Option<u32>)
    ensures
        r == whole_years_between(base as int, now as int),
{
    match (DateTime::<Utc>::from_timestamp(base, 0), DateTime::<Utc>::from_timestamp(now, 0)) {
        (Some(b), Some(n)) => n.years_since(b),
        _ => None,
    }
}

/// Relies on chrono's `DateTime::checked_add_months`: the same day of the
/// month (or the month's last day) and time of day, `months` months later.
#[verifier::external_body]
pub(crate) fn add_months(ts: i64, months: u32) -> (r: Option<i64>)
    ensures
        r == utc_add_months(ts as int, months as int),
{
    DateTime::<Utc>::from_timestamp(ts, 0)
        .and_then(|d| d.checked_add_months(Months::new(months)))
        .map(|d| d.timestamp())
}

/// Relies on chrono-tz's `Tz::from_str_insensitive` and `Tz::name`: the
/// canonical name of the zone, or nothing for a name that the time-zone
/// database does not hold.
#[verifier::external_body]
pub(crate) fn canonical_zone_name(name: &str) -> (r: Option<String>)
    ensures
        match r {
            Some(z) => canonical_zone(name@) == Some(z@),
            None => canonical_zone(name@) is None,
        },
{
    Tz::from_str_insensitive(name).ok().map(|z| z.name().to_string())
}

/// Relies on chrono's `NaiveDateTime::and_local_timezone` with a chrono-tz
/// zone parsed by its exact name: the instant of the local date and time.
#[verifier::external_body]
pub(crate) fn local_to_utc(zone: &str, year: i32, month: u32, day: u32, secs: u32) -> (r: LocalTime)
    ensures
        r == local_instant(zone@, year as int, month as int, day as int, secs as int),
{
    let date = NaiveDate::from_ymd_opt(year, month, day);
    let time = NaiveTime::from_num_seconds_from_midnight_opt(secs, 0);
    match (zone.parse::<Tz>(), date, time) {
        (Ok(tz), Some(d), Some(t)) => match d.and_time(t).and_local_timezone(tz) {
            LocalResult::Single(v) => LocalTime::Single(v.timestamp()),
            LocalResult::Ambiguous(_, _) => LocalTime::Ambiguous,
            LocalResult::None => LocalTime::Skipped,
        },
        _ => LocalTime::Unresolvable,
    }
}

} // verus!
