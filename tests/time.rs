use class_scheduler::{Time, TimeRange, MAX_MINUTES};
use std::cmp::Ordering;

#[test]
fn parses_trailing_hhmm() {
    assert_eq!(Time::from_str("09:05"), Ok(Time { hour: 9, minute: 5 }));
    assert_eq!(Time::from_str("2024-01-08T13:45"), Ok(Time { hour: 13, minute: 45 }));
    assert_eq!(Time::from_str("99:99"), Ok(Time { hour: 99, minute: 99 }));
}

#[test]
fn rejects_malformed_time() {
    assert_eq!(Time::from_str("9:05"), Err(()));
    assert_eq!(Time::from_str("ab:cd"), Err(()));
    assert_eq!(Time::from_str("09-05"), Err(()));
    assert_eq!(Time::from_str("13:45 PM"), Err(()));
    assert_eq!(Time::from_str(""), Err(()));
}

#[test]
fn minutes_round_trip() {
    let t = Time { hour: 13, minute: 45 };
    assert_eq!(t.into_min(), 825);
    assert_eq!(Time::from_min(825), t);
    assert_eq!(Time::from_min(0), Time { hour: 0, minute: 0 });
    assert_eq!(Time { hour: 1, minute: 75 }.into_min(), 135);
}

#[test]
fn shifting_clamps_at_midnight() {
    let t = Time { hour: 0, minute: 10 };
    assert_eq!(t.sub_minutes(30), Time { hour: 0, minute: 0 });
    assert_eq!(Time { hour: 10, minute: 0 }.sub_minutes(30), Time { hour: 9, minute: 30 });
}

#[test]
fn shifting_does_not_wrap_at_midnight() {
    let t = Time { hour: 23, minute: 50 };
    assert_eq!(t.add_minutes(30), Time { hour: 24, minute: 20 });
    assert_eq!(Time { hour: 10, minute: 0 }.add_minutes(30), Time { hour: 10, minute: 30 });
}

#[test]
fn shifting_normalises() {
    assert_eq!(Time { hour: 1, minute: 75 }.add_minutes(0), Time { hour: 2, minute: 15 });
}

#[test]
fn shifting_holds_at_largest_time() {
    let t = Time { hour: u32::MAX, minute: 50 };
    assert_eq!(t.add_minutes(30), Time::from_min(MAX_MINUTES));
    assert_eq!(Time::from_min(MAX_MINUTES), Time { hour: u32::MAX, minute: 59 });
}

#[test]
fn compares_by_hour_then_minute() {
    let a = Time { hour: 9, minute: 59 };
    let b = Time { hour: 10, minute: 0 };
    assert_eq!(a.cmp(&b), Ordering::Less);
    assert_eq!(b.cmp(&a), Ordering::Greater);
    assert_eq!(a.cmp(&a), Ordering::Equal);
    assert_eq!(Time { hour: 1, minute: 75 }.cmp(&Time { hour: 2, minute: 0 }), Ordering::Less);
    assert!(a.is_le(&b));
    assert!(a.is_le(&a));
    assert!(!b.is_le(&a));
}

#[test]
fn range_length_in_minutes() {
    let r = TimeRange { start: Time { hour: 9, minute: 10 }, end: Time { hour: 10, minute: 25 } };
    assert_eq!(r.len(), 75);
    let empty = TimeRange { start: Time { hour: 9, minute: 10 }, end: Time { hour: 9, minute: 10 } };
    assert_eq!(empty.len(), 0);
}
