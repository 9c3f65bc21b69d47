use origin_bot::event::{subject_lt, Event};
use origin_bot::occurrence::{
    approximate_next_birthday, calc_next_birthday, compute_next_occurrence, leap_year,
    ScheduleError, ValidationError, COMMON_YEAR_SECS, LEAP_YEAR_SECS,
};
use origin_bot::saving::SavePlanner;
use origin_bot::schedule::Schedule;
use origin_bot::store::{GroupConfig, GroupRecord, SnapshotError, Store};

const T_2019_06_01: i64 = 1_559_347_200;
const T_2023_03_15: i64 = 1_678_838_400;
const T_2023_06_01: i64 = 1_685_577_600;
const T_2024_06_01: i64 = 1_717_200_000;
const T_2024_11_03_0400: i64 = 1_730_606_400;
const T_2024_01_01: i64 = 1_704_067_200;
const T_2024_02_29: i64 = 1_709_164_800;
const T_2024_03_15: i64 = 1_710_460_800;
const T_2024_03_20: i64 = 1_710_892_800;
const T_2024_07_01: i64 = 1_719_792_000;
const T_2025_01_10: i64 = 1_736_467_200;
const T_2025_03_01: i64 = 1_740_787_200;
const T_2025_03_15: i64 = 1_741_996_800;
const T_2025_06_01: i64 = 1_748_736_000;
const T_2026_03_15: i64 = 1_773_532_800;
const HOUR: i64 = 3_600;
const DAY: i64 = 86_400;

fn event(subject: &str, at: i64) -> Event {
    Event {
        subject_id: subject.to_string(),
        occurrence_at: at,
        uses_time_of_day: false,
        notify_target: 7,
    }
}

fn subjects(events: &[Event]) -> Vec<String> {
    events.iter().map(|e| e.subject_id.clone()).collect()
}

#[test]
fn add_then_fire_then_reschedule() {
    let mut store = Store::new();
    let g: u64 = 42;
    let next = store.add_or_update(g, "alice".to_string(), 3, 15, None, Some("UTC".to_string()), 1, T_2024_03_20);
    assert_eq!(next, Ok(T_2025_03_15));
    let firings = store.tick(T_2025_03_15 + 1);
    assert_eq!(firings.len(), 1);
    assert_eq!(firings[0].group_id, g);
    assert_eq!(subjects(&firings[0].events), vec!["alice".to_string()]);
    assert_eq!(firings[0].events[0].occurrence_at, T_2025_03_15);
    let alice = store.get(g, &"alice".to_string()).unwrap();
    assert_eq!(alice.occurrence_at, T_2026_03_15);
    assert!(store.tick(T_2025_03_15 + 2)[0].events.is_empty());
}

#[test]
fn compute_is_after_now() {
    let nows = [T_2024_01_01, T_2024_03_20, T_2024_07_01, T_2025_01_10];
    for now in nows {
        for (m, d) in [(1u32, 1u32), (3, 15), (6, 30), (12, 31), (2, 29)] {
            let r = compute_next_occurrence(m, d, Some(12 * 3600), "Europe/London", now).unwrap();
            assert!(r > now || now - r < DAY, "{} {} {}", m, d, now);
        }
    }
    let r = compute_next_occurrence(1, 1, None, "UTC", T_2024_07_01).unwrap();
    assert!(r > T_2024_07_01);
}

#[test]
fn earlier_today_is_kept() {
    let r = compute_next_occurrence(3, 15, None, "UTC", T_2024_03_15 + 10 * HOUR);
    assert_eq!(r, Ok(T_2024_03_15));
    let r = compute_next_occurrence(3, 15, None, "UTC", T_2024_03_15 + DAY);
    assert_eq!(r, Ok(T_2024_03_15 + 365 * DAY));
}

#[test]
fn end_of_day_follows_local_midnight() {
    // Nov 3 2024 lasts 25 hours in New York: 24.5 hours after its midnight
    // the day has not ended yet.
    let now = T_2024_11_03_0400 + 24 * HOUR + 30 * 60;
    let r = compute_next_occurrence(11, 3, None, "America/New_York", now);
    assert_eq!(r, Ok(T_2024_11_03_0400));
    let later = T_2024_11_03_0400 + 25 * HOUR;
    let r = compute_next_occurrence(11, 3, None, "America/New_York", later).unwrap();
    assert!(r > later);
}

#[test]
fn time_of_day_and_zone_shift_the_instant() {
    let r = compute_next_occurrence(6, 1, Some(9 * 3600 + 30 * 60), "UTC", T_2024_01_01);
    assert_eq!(r, Ok(T_2024_01_01 + 152 * DAY + 9 * HOUR + 30 * 60));
    // New York is five hours behind UTC in January.
    let r = compute_next_occurrence(1, 2, None, "America/New_York", T_2024_01_01);
    assert_eq!(r, Ok(T_2024_01_01 + DAY + 5 * HOUR));
}

#[test]
fn leap_day_in_common_year_uses_approximation() {
    // From Feb 29 2024 into the common year 2025: 365 days, Feb 28 2025.
    let r = compute_next_occurrence(2, 29, None, "UTC", T_2025_01_10);
    assert_eq!(r, Ok(T_2025_03_01 - DAY));
    let r = compute_next_occurrence(2, 29, None, "UTC", T_2024_01_01);
    assert_eq!(r, Ok(T_2024_02_29));
}

#[test]
fn catch_up_in_one_step() {
    assert_eq!(calc_next_birthday(T_2019_06_01, T_2024_07_01), T_2025_06_01);
    assert_eq!(calc_next_birthday(T_2025_06_01, T_2024_07_01), T_2025_06_01);
    assert_eq!(calc_next_birthday(T_2023_03_15, T_2024_03_20), T_2025_03_15);
}

#[test]
fn catch_up_from_leap_day_never_lands_in_the_past() {
    // Twelve months after Feb 29 2024 is Feb 28 2025, before noon that day.
    let now = T_2024_02_29 + 365 * DAY + 12 * HOUR;
    let r = calc_next_birthday(T_2024_02_29, now);
    assert!(r > now);
    assert_eq!(r, T_2024_02_29 + 365 * DAY + COMMON_YEAR_SECS);
}

#[test]
fn approximation_steps() {
    assert_eq!(approximate_next_birthday(T_2024_02_29, T_2025_01_10), T_2025_03_01 - DAY);
    assert_eq!(approximate_next_birthday(T_2024_02_29, T_2024_01_01), T_2024_02_29);
    // The target year 2024 is a leap year: 366 days.
    let from_2023 = approximate_next_birthday(T_2023_03_15, T_2023_03_15);
    assert_eq!(from_2023, T_2023_03_15 + LEAP_YEAR_SECS);
    assert_eq!(approximate_next_birthday(T_2023_06_01, T_2023_06_01), T_2024_06_01);
    // No step may pass the largest instant.
    assert_eq!(approximate_next_birthday(i64::MAX - 10, i64::MAX - 5), i64::MAX);
    let far = approximate_next_birthday(T_2023_03_15, T_2024_03_20);
    assert_eq!(far, T_2023_03_15 + COMMON_YEAR_SECS + LEAP_YEAR_SECS);
}

#[test]
fn leap_years() {
    assert!(leap_year(2024));
    assert!(leap_year(2000));
    assert!(!leap_year(1900));
    assert!(!leap_year(2025));
    assert!(leap_year(-4));
}

#[test]
fn validation_errors() {
    let v = |e| Err(ScheduleError::Validation(e));
    assert_eq!(compute_next_occurrence(2, 30, None, "UTC", T_2024_01_01), v(ValidationError::InvalidDate));
    assert_eq!(compute_next_occurrence(13, 1, None, "UTC", T_2024_01_01), v(ValidationError::InvalidDate));
    assert_eq!(compute_next_occurrence(4, 31, None, "UTC", T_2024_01_01), v(ValidationError::InvalidDate));
    assert_eq!(compute_next_occurrence(4, 1, Some(86_400), "UTC", T_2024_01_01), v(ValidationError::InvalidTimeOfDay));
    assert_eq!(compute_next_occurrence(4, 1, None, "Mars/Olympus", T_2024_01_01), v(ValidationError::UnknownTimezone));
    assert_eq!(compute_next_occurrence(4, 1, None, "UTC", 9_000_000_000_000_000), v(ValidationError::OutOfRange));
    let mut store = Store::new();
    let r = store.add_or_update(1, "bob".to_string(), 4, 1, None, None, 2, T_2024_01_01);
    assert_eq!(r, v(ValidationError::NoTimezone));
    assert!(!store.is_set_up(1));
}

#[test]
fn skipped_local_time_is_refused() {
    // 02:30 on March 10 2024 does not exist in New York.
    let r = compute_next_occurrence(3, 10, Some(2 * 3600 + 1800), "America/New_York", T_2024_01_01);
    assert_eq!(r, Err(ScheduleError::InvalidLocalTime));
    // 01:30 on November 3 2024 occurs twice there.
    let r = compute_next_occurrence(11, 3, Some(3600 + 1800), "America/New_York", T_2024_01_01);
    assert_eq!(r, Err(ScheduleError::InvalidLocalTime));
}

#[test]
fn zone_names_ignore_case() {
    let r = compute_next_occurrence(3, 15, None, "utc", T_2024_03_20);
    assert_eq!(r, Ok(T_2025_03_15));
    let mut store = Store::new();
    let config = GroupConfig {
        default_timezone: Some("europe/london".to_string()),
        announce_target: None,
        allow_anyone_edit: false,
        announce_group_wide: false,
    };
    store.setup_group(1, config).unwrap();
    assert_eq!(store.to_snapshot()[0].config.default_timezone, Some("europe/london".to_string()));
    let r = store.add_or_update(1, "eve".to_string(), 1, 2, None, None, 1, T_2024_01_01);
    assert_eq!(r, Ok(T_2024_01_01 + DAY));
}

#[test]
fn timezone_command_takes_exact_names() {
    let mut store = Store::new();
    store.set_timezone(1, "UTC").unwrap();
    let unknown = Err(ScheduleError::Validation(ValidationError::UnknownTimezone));
    assert_eq!(store.set_timezone(1, "europe/london"), unknown);
    assert_eq!(store.to_snapshot()[0].config.default_timezone, Some("UTC".to_string()));
    assert_eq!(store.set_timezone(1, "Nowhere"), unknown);
    store.set_timezone(1, "Europe/London").unwrap();
    assert_eq!(store.to_snapshot()[0].config.default_timezone, Some("Europe/London".to_string()));
}

#[test]
fn insert_twice_keeps_one() {
    let mut s = Schedule::new();
    assert!(s.insert(event("alice", 100)).is_none());
    let prev = s.insert(event("alice", 50)).unwrap();
    assert_eq!(prev.occurrence_at, 100);
    assert_eq!(s.len(), 1);
    assert_eq!(s.get(&"alice".to_string()).unwrap().occurrence_at, 50);
    assert_eq!(subjects(s.ordered_iter()), vec!["alice".to_string()]);
}

#[test]
fn order_breaks_ties_by_subject() {
    let mut s = Schedule::new();
    s.insert(event("carol", 10));
    s.insert(event("bob", 10));
    s.insert(event("alice", 20));
    s.insert(event("abe", 10));
    assert_eq!(subjects(s.ordered_iter()), vec!["abe", "bob", "carol", "alice"]);
    assert!(subject_lt(&"ab".to_string(), &"abc".to_string()));
    assert!(!subject_lt(&"b".to_string(), &"abc".to_string()));
    assert!(!subject_lt(&"x".to_string(), &"x".to_string()));
}

#[test]
fn pop_due_takes_exactly_the_due_prefix() {
    let mut s = Schedule::new();
    for (name, at) in [("a", 5), ("b", 10), ("c", 10), ("d", 11), ("e", 30)] {
        s.insert(event(name, at));
    }
    let peeked = s.peek_due(10);
    assert_eq!(subjects(&peeked), vec!["a", "b", "c"]);
    assert_eq!(s.len(), 5);
    let popped = s.pop_due(10);
    assert_eq!(subjects(&popped), subjects(&peeked));
    for e in &popped {
        assert!(s.get(&e.subject_id).is_none());
    }
    assert_eq!(subjects(s.ordered_iter()), vec!["d", "e"]);
}

#[test]
fn empty_schedule_returns_empty() {
    let mut s = Schedule::new();
    assert!(s.is_empty());
    assert!(s.peek_due(i64::MAX).is_empty());
    assert!(s.pop_due(i64::MAX).is_empty());
    assert!(s.remove(&"nobody".to_string()).is_none());
    assert!(s.get(&"nobody".to_string()).is_none());
}

#[test]
fn remove_reports_presence() {
    let mut store = Store::new();
    store.add_or_update(9, "ann".to_string(), 5, 5, None, Some("UTC".to_string()), 3, T_2024_01_01).unwrap();
    assert!(store.remove(9, &"ann".to_string()));
    assert!(!store.remove(9, &"ann".to_string()));
    assert!(!store.remove(10, &"ann".to_string()));
    assert!(store.get(9, &"ann".to_string()).is_none());
}

#[test]
fn distinct_subjects_all_listed() {
    let mut store = Store::new();
    let names = ["d", "b", "a", "c", "e"];
    for (i, n) in names.iter().enumerate() {
        let r = store.add_or_update(3, n.to_string(), 1 + i as u32, 1, None, Some("UTC".to_string()), 0, T_2024_01_01 + DAY);
        assert!(r.is_ok());
    }
    // January 1 has passed at `now`, so "d" comes next year, after the rest.
    let (first, rest) = store.list_upcoming(3, 3);
    assert_eq!(subjects(&first), vec!["b", "a", "c"]);
    assert_eq!(rest, 2);
    let (all, rest) = store.list_upcoming(3, 20);
    assert_eq!(all.len(), 5);
    assert_eq!(rest, 0);
    let (none, rest) = store.list_upcoming(4, 20);
    assert!(none.is_empty());
    assert_eq!(rest, 0);
}

#[test]
fn group_default_zone_is_used() {
    let mut store = Store::new();
    assert!(store.set_timezone(5, "Mars/Base").is_err());
    assert!(!store.is_set_up(5));
    store.set_timezone(5, "Europe/London").unwrap();
    assert!(store.is_set_up(5));
    let r = store.add_or_update(5, "eve".to_string(), 1, 2, None, None, 1, T_2024_01_01);
    assert_eq!(r, Ok(T_2024_01_01 + DAY));
}

#[test]
fn setup_validates_zone() {
    let mut store = Store::new();
    let bad = GroupConfig {
        default_timezone: Some("Atlantis".to_string()),
        announce_target: Some(11),
        allow_anyone_edit: true,
        announce_group_wide: false,
    };
    assert_eq!(store.setup_group(8, bad), Err(ScheduleError::Validation(ValidationError::UnknownTimezone)));
    assert!(!store.is_set_up(8));
    let good = GroupConfig {
        default_timezone: Some("america/new_york".to_string()),
        announce_target: Some(11),
        allow_anyone_edit: true,
        announce_group_wide: false,
    };
    assert_eq!(store.setup_group(8, good.clone()), Ok(()));
    let snap = store.to_snapshot();
    assert_eq!(snap[0].config.default_timezone, Some("america/new_york".to_string()));
    assert_eq!(store.setup_group(8, good), Err(ScheduleError::AlreadySetUp));
    assert_eq!(store.tick(T_2024_01_01)[0].announce_target, Some(11));
}

#[test]
fn snapshot_round_trip() {
    let mut store = Store::new();
    let utc = Some("UTC".to_string());
    store.add_or_update(1, "x".to_string(), 7, 4, None, utc.clone(), 1, T_2024_01_01).unwrap();
    store.add_or_update(1, "y".to_string(), 2, 1, Some(3600), utc.clone(), 2, T_2024_01_01).unwrap();
    store.add_or_update(2, "z".to_string(), 12, 25, None, utc.clone(), 3, T_2024_01_01).unwrap();
    let snap = store.to_snapshot();
    let loaded = Store::from_snapshot(&snap).unwrap();
    let again = loaded.to_snapshot();
    assert_eq!(snap.len(), again.len());
    for (a, b) in snap.iter().zip(again.iter()) {
        assert_eq!(a.group_id, b.group_id);
        assert_eq!(subjects(&a.events), subjects(&b.events));
        let ta: Vec<i64> = a.events.iter().map(|e| e.occurrence_at).collect();
        let tb: Vec<i64> = b.events.iter().map(|e| e.occurrence_at).collect();
        assert_eq!(ta, tb);
    }
    assert_eq!(subjects(&again[0].events), vec!["y", "x"]);
}

#[test]
fn snapshot_rebuilds_order() {
    let rec = GroupRecord {
        group_id: 1,
        config: GroupConfig::new(),
        events: vec![event("late", 50), event("early", 5)],
    };
    let store = Store::from_snapshot(&vec![rec]).unwrap();
    assert_eq!(subjects(&store.to_snapshot()[0].events), vec!["early", "late"]);
}

#[test]
fn snapshot_errors() {
    let rec = |g: u64, events: Vec<Event>| GroupRecord { group_id: g, config: GroupConfig::new(), events };
    let dup_group = vec![rec(1, vec![]), rec(1, vec![])];
    assert_eq!(Store::from_snapshot(&dup_group).err(), Some(SnapshotError::DuplicateGroup));
    let dup_subject = vec![rec(1, vec![event("a", 1), event("a", 2)])];
    assert_eq!(Store::from_snapshot(&dup_subject).err(), Some(SnapshotError::DuplicateSubject));
}

#[test]
fn saves_coalesce_after_settling() {
    let mut p = SavePlanner::new(5);
    assert!(!p.should_write(100));
    p.request(100);
    p.request(102);
    assert!(!p.should_write(106));
    assert!(p.should_write(107));
    p.begin_write();
    assert!(!p.should_write(200));
    p.write_failed(200);
    assert!(!p.should_write(201));
    assert!(p.should_write(205));
}

#[test]
fn announce_target_is_set() {
    let mut store = Store::new();
    store.set_announce_target(6, 99);
    assert!(store.is_set_up(6));
    assert_eq!(store.tick(T_2024_01_01)[0].announce_target, Some(99));
    store.set_timezone(6, "UTC").unwrap();
    assert_eq!(store.to_snapshot()[0].config.announce_target, Some(99));
}
