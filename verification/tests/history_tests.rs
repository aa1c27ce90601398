use com_com::history::{
    format_local, format_relative, format_uptime, relative_from_secs, EventType, History,
    HistoryEvent,
};
use com_com::timestamp::{at_or_after, seconds_before, seconds_between, Timestamp};

fn ts(secs: i64) -> Timestamp {
    Timestamp::new(secs, 0).unwrap()
}

fn event(port: &str, t: EventType, at: i64, uptime: Option<i64>) -> HistoryEvent {
    HistoryEvent {
        port: port.to_string(),
        board_name: "Arduino Uno".to_string(),
        vid: Some(0x2341),
        pid: Some(0x0043),
        event_type: t,
        timestamp: ts(at),
        session_id: "id".to_string(),
        uptime_secs: uptime,
    }
}

#[test]
fn uptime_formatting() {
    assert_eq!(format_uptime(0), "0s");
    assert_eq!(format_uptime(-5), "0s");
    assert_eq!(format_uptime(i64::MIN), "0s");
    assert_eq!(format_uptime(59), "59s");
    assert_eq!(format_uptime(60), "1m 0s");
    assert_eq!(format_uptime(3599), "59m 59s");
    assert_eq!(format_uptime(3600), "1h 0m");
    assert_eq!(format_uptime(3725), "1h 2m");
    assert_eq!(format_uptime(86399), "23h 59m");
    assert_eq!(format_uptime(86400), "1d 0h");
    assert_eq!(format_uptime(90061), "1d 1h");
    assert_eq!(format_uptime(i64::MAX), "106751991167300d 15h");
}

#[test]
fn relative_formatting() {
    assert_eq!(relative_from_secs(-10), "just now");
    assert_eq!(relative_from_secs(4), "just now");
    assert_eq!(relative_from_secs(5), "5 seconds ago");
    assert_eq!(relative_from_secs(59), "59 seconds ago");
    assert_eq!(relative_from_secs(60), "1 minute ago");
    assert_eq!(relative_from_secs(119), "1 minute ago");
    assert_eq!(relative_from_secs(120), "2 minutes ago");
    assert_eq!(relative_from_secs(3600), "1 hour ago");
    assert_eq!(relative_from_secs(7200), "2 hours ago");
    assert_eq!(relative_from_secs(86400), "1 day ago");
    assert_eq!(relative_from_secs(3 * 86400), "3 days ago");
    assert_eq!(format_relative(ts(1_000), ts(1_090)), "1 minute ago");
    assert_eq!(format_relative(ts(2_000), ts(1_000)), "just now");
}

#[test]
fn local_time_has_the_documented_shape() {
    let s = format_local(ts(1_700_000_000), 3600);
    assert_eq!(s.len(), 19);
    assert_eq!(&s[4..5], "-");
    assert_eq!(&s[10..11], " ");
}

#[test]
fn event_type_names() {
    assert_eq!(EventType::Connected.to_string(), "Connected");
    assert_eq!(EventType::Disconnected.to_string(), "Disconnected");
}

#[test]
fn timestamps() {
    assert!(Timestamp::new(0, 1_000_000_000).is_none());
    assert!(Timestamp::new(i64::MAX, 0).is_none());
    assert!(Timestamp::new(-8_334_601_228_800, 0).is_some());
    assert!(Timestamp::new(-8_334_601_228_801, 0).is_none());
    let later = Timestamp::new(10, 0).unwrap();
    let earlier = Timestamp::new(8, 500_000_000).unwrap();
    assert_eq!(seconds_between(later, earlier), 1);
    assert_eq!(seconds_between(earlier, later), -1);
    assert_eq!(seconds_between(later, later), 0);
    assert_eq!(seconds_between(ts(100), ts(40)), 60);
    assert!(at_or_after(later, earlier));
    assert!(!at_or_after(earlier, later));
    assert!(at_or_after(later, later));
    let back = seconds_before(Timestamp::new(100, 7).unwrap(), 40);
    assert_eq!(back, Timestamp::new(60, 7).unwrap());
}

#[test]
fn history_queries() {
    let day = 86_400;
    let now = ts(10 * day);
    let mut h = History::new();
    h.add_event(event("COM3", EventType::Connected, 10 * day - 3 * day, None));
    h.add_event(event("COM3", EventType::Disconnected, 10 * day - 2 * day, Some(day)));
    h.add_event(event("COM4", EventType::Connected, 10 * day - 600, None));
    h.add_event(event("COM4", EventType::Disconnected, 10 * day - 60, Some(540)));
    assert_eq!(h.events.len(), 4);

    let last_day: Vec<String> = h.events_since(1, now).iter().map(|e| e.port.clone()).collect();
    assert_eq!(last_day, vec!["COM4", "COM4"]);
    assert_eq!(h.events_since(2, now).len(), 3);
    assert_eq!(h.events_since(7, now).len(), 4);
    assert_eq!(h.events_since(0, now).len(), 0);

    let recent = h.recently_disconnected(30, now);
    assert_eq!(recent.len(), 1);
    assert_eq!(recent[0].port, "COM4");
    assert_eq!(recent[0].uptime_secs, Some(540));
    assert_eq!(h.recently_disconnected(3 * 24 * 60, now).len(), 2);

    assert!(h.was_previously_seen("COM3"));
    assert!(!h.was_previously_seen("COM9"));

    h.cleanup(1, now);
    assert_eq!(h.events.len(), 2);
    assert!(!h.was_previously_seen("COM3"));
}

#[test]
fn window_boundary_is_inclusive() {
    let now = ts(1_000_000);
    let mut h = History::new();
    h.add_event(event("COM1", EventType::Disconnected, 1_000_000 - 30 * 60, None));
    assert_eq!(h.recently_disconnected(30, now).len(), 1);
    assert_eq!(h.recently_disconnected(29, now).len(), 0);
}

#[test]
fn local_time_at_fixed_offsets() {
    assert_eq!(format_local(ts(1_700_000_000), 0), "2023-11-14 22:13:20");
    assert_eq!(format_local(ts(1_700_000_000), 3600), "2023-11-14 23:13:20");
    assert_eq!(format_local(ts(1_700_000_000), -5 * 3600), "2023-11-14 17:13:20");
    assert_eq!(format_local(ts(0), 0), "1970-01-01 00:00:00");
}

#[test]
fn limits_keep_recent_events() {
    let day = 86_400;
    let mut h = History::new();
    h.add_event(event("COM3", EventType::Connected, 0, None));
    h.add_event(event("COM3", EventType::Disconnected, 10 * day, Some(10 * day)));
    h.add_event(event("COM4", EventType::Connected, 20 * day, None));
    h.add_event(event("COM4", EventType::Disconnected, 40 * day, Some(20 * day)));
    let now = ts(45 * day);

    let mut default_limits = h.clone();
    default_limits.enforce_limits(None, None, now);
    assert_eq!(default_limits.events.len(), 2);
    assert_eq!(default_limits.events[0].timestamp, ts(20 * day));
    let again = default_limits.events.len();
    default_limits.enforce_limits(None, None, now);
    assert_eq!(default_limits.events.len(), again);

    let mut capped = h.clone();
    capped.enforce_limits(Some(100), Some(3), now);
    assert_eq!(capped.events.len(), 3);
    assert_eq!(capped.events[0].timestamp, ts(10 * day));

    let mut newest = h.clone();
    newest.enforce_limits(Some(100), Some(1), now);
    assert_eq!(newest.events.len(), 1);
    assert_eq!(newest.events[0].timestamp, ts(40 * day));

    let mut unbounded = h.clone();
    unbounded.enforce_limits(Some(u32::MAX), None, now);
    assert_eq!(unbounded.events.len(), 4);
}

#[test]
fn cleanup_twice_is_cleanup_once() {
    let day = 86_400;
    let mut h = History::new();
    h.add_event(event("COM3", EventType::Connected, 0, None));
    h.add_event(event("COM3", EventType::Disconnected, 5 * day, Some(5 * day)));
    h.cleanup(3, ts(7 * day));
    assert_eq!(h.events.len(), 1);
    h.cleanup(3, ts(7 * day));
    assert_eq!(h.events.len(), 1);
}

#[test]
fn local_time_at_the_start_of_the_range() {
    let first = Timestamp::new(-8_334_601_228_800, 0).unwrap();
    assert_eq!(format_local(first, 86_399), "-262143-01-01 23:59:59");
    assert_eq!(format_local(first, -86_399), "-262144-12-31 00:00:01");
}

#[test]
fn local_time_at_the_end_of_the_range() {
    let last = Timestamp::new(8_210_266_876_799, 999_999_999).unwrap();
    assert_eq!(format_local(last, -86_399), "+262142-12-31 00:00:00");
    assert_eq!(format_local(last, 86_399), "+262143-01-01 23:59:58");
}

#[test]
fn local_time_of_four_digit_years() {
    assert_eq!(format_local(Timestamp::new(253_402_300_799, 0).unwrap(), 0), "9999-12-31 23:59:59");
    assert_eq!(format_local(Timestamp::new(-62_167_219_200, 0).unwrap(), 0), "0000-01-01 00:00:00");
    assert_eq!(format_local(Timestamp::new(-62_167_219_201, 0).unwrap(), 0), "-0001-12-31 23:59:59");
    assert_eq!(format_local(Timestamp::new(253_402_300_800, 0).unwrap(), 0), "+10000-01-01 00:00:00");
    assert_eq!(format_local(Timestamp::new(951_782_400, 0).unwrap(), 0), "2000-02-29 00:00:00");
    assert_eq!(format_local(Timestamp::new(-1, 0).unwrap(), 0), "1969-12-31 23:59:59");
}
