use std::time::{Duration, Instant};
use toolchest::time::{cron_matches, DateTime, deadline, duration_humanize, elapsed, parse_duration, BackoffIter, Stopwatch};

#[test]
fn test_duration_parse_humanize() {
    assert_eq!(parse_duration("1h30m").unwrap(), 5_400_000);
    let s = duration_humanize(3661);
    assert!(s.contains("1h"));
}

#[test]
fn test_elapsed_and_deadline() {
    let (v, d) = elapsed(|| 42);
    assert_eq!(v, 42);
    assert!(d <= 1000);
    assert_eq!(deadline(Instant::now() - Duration::from_secs(1)), true);
}

#[test]
fn test_backoff_iter() {
    let mut it = BackoffIter::new(10);
    assert_eq!(it.next().unwrap(), 10);
    assert_eq!(it.next().unwrap(), 20);
}

#[test]
fn duration_text_forms() {
    assert_eq!(duration_humanize(3661), "1h1m1s");
    assert_eq!(duration_humanize(61), "1m1s");
    assert_eq!(duration_humanize(0), "0s");
    assert_eq!(duration_humanize(3600), "1h0m0s");
    assert_eq!(parse_duration("45s"), Some(45_000));
    assert_eq!(parse_duration("2m5s"), Some(125_000));
    assert_eq!(parse_duration(""), Some(0));
    assert_eq!(parse_duration("10"), None);
    assert_eq!(parse_duration("h"), None);
    assert_eq!(parse_duration("5d"), None);
    assert_eq!(parse_duration("99999999999999999999h"), None);
    let sw = Stopwatch::start_new();
    assert!(sw.elapsed() < 60_000);
}

#[test]
fn backoff_saturates() {
    let mut it = BackoffIter::new(u64::MAX / 2 + 1);
    assert_eq!(it.next(), Some(u64::MAX / 2 + 1));
    assert_eq!(it.next(), Some(u64::MAX));
    assert_eq!(it.next(), Some(u64::MAX));
}

#[test]
fn cron_minute_field() {
    let now = DateTime { minute: 30 };
    assert!(cron_matches(&now, "* * * * *"));
    assert!(cron_matches(&now, "*/15 * * * *"));
    assert!(!cron_matches(&now, "*/7 * * * *"));
    assert!(cron_matches(&now, "30 1 * * *"));
    assert!(cron_matches(&now, "  +30"));
    assert!(!cron_matches(&now, "31"));
    assert!(!cron_matches(&now, ""));
    assert!(cron_matches(&now, "*/x"));
    assert!(!cron_matches(&now, "*/0"));
    assert!(!cron_matches(&now, "99999999999"));
}
