use com_com::detection::DeviceInfo;
use com_com::history::{EventType, History, HistoryEvent};
use com_com::timestamp::Timestamp;
use com_com::watch::{watch_poll, watch_start, WatchEventKind, WatchState};

fn ts(secs: i64) -> Timestamp {
    Timestamp::new(secs, 0).unwrap()
}

fn dev(port: &str, board: &str) -> DeviceInfo {
    DeviceInfo {
        port: port.to_string(),
        board_name: board.to_string(),
        manufacturer: "M".to_string(),
        vid: Some(1),
        pid: Some(2),
        serial_number: None,
        product: None,
        is_arduino: true,
    }
}

fn ids(n: usize, tag: &str) -> Vec<String> {
    (0..n).map(|i| format!("{}{}", tag, i)).collect()
}

#[test]
fn start_announces_present_devices() {
    let mut state = WatchState::new();
    let mut history = History::new();
    history.add_event(HistoryEvent {
        port: "COM4".to_string(),
        board_name: "old".to_string(),
        vid: None,
        pid: None,
        event_type: EventType::Disconnected,
        timestamp: ts(1),
        session_id: "z".to_string(),
        uptime_secs: Some(3),
    });
    let devices = vec![dev("COM3", "Uno"), dev("COM4", "Teensy")];
    let notices = watch_start(&mut state, &mut history, &devices, ts(100), &ids(2, "s"), None, None);
    assert_eq!(notices.len(), 2);
    assert_eq!(notices[0].kind, WatchEventKind::Connected);
    assert_eq!(notices[1].kind, WatchEventKind::Reconnected);
    assert_eq!(history.events.len(), 3);
    assert_eq!(history.events[1].session_id, "s0");
    assert_eq!(state.connected.len(), 2);
    assert_eq!(state.ever_seen.len(), 2);
}

#[test]
fn polls_announce_changes() {
    let mut state = WatchState::new();
    let mut history = History::new();
    watch_start(&mut state, &mut history, &vec![dev("COM3", "Uno")], ts(100), &ids(1, "a"), None, None);

    // Nothing changed.
    let n = watch_poll(&mut state, &mut history, &vec![dev("COM3", "Uno")], ts(101), &ids(1, "b"), None, None);
    assert!(n.is_empty());
    assert_eq!(history.events.len(), 1);

    // COM3 goes away, COM5 arrives.
    let n = watch_poll(&mut state, &mut history, &vec![dev("COM5", "Due")], ts(160), &ids(1, "c"), None, None);
    assert_eq!(n.len(), 2);
    assert_eq!(n[0].kind, WatchEventKind::Connected);
    assert_eq!(n[0].port, "COM5");
    assert_eq!(n[1].kind, WatchEventKind::Disconnected);
    assert_eq!(n[1].port, "COM3");
    assert_eq!(n[1].uptime_secs, Some(60));
    assert_eq!(history.events.len(), 3);
    assert_eq!(history.events[1].session_id, "c0");
    assert_eq!(history.events[2].event_type, EventType::Disconnected);
    assert_eq!(history.events[2].session_id, "a0");
    assert_eq!(history.events[2].vid, None);
    assert_eq!(history.events[2].uptime_secs, Some(60));

    // COM3 comes back: reconnected.
    let n = watch_poll(&mut state, &mut history, &vec![dev("COM5", "Due"), dev("COM3", "Uno")], ts(200), &ids(2, "d"), None, None);
    assert_eq!(n.len(), 1);
    assert_eq!(n[0].kind, WatchEventKind::Reconnected);
    assert_eq!(history.events[3].session_id, "d1");
}

#[test]
fn duplicate_ports_use_the_last_device() {
    let mut state = WatchState::new();
    let mut history = History::new();
    let n = watch_poll(&mut state, &mut history, &vec![dev("COM3", "first"), dev("COM3", "second")], ts(5), &ids(2, "x"), None, None);
    assert_eq!(n.len(), 1);
    assert_eq!(n[0].board, "second");
    assert_eq!(history.events[0].session_id, "x1");
}

#[test]
fn watch_keeps_history_within_limits() {
    let mut state = WatchState::new();
    let mut history = History::new();
    watch_start(&mut state, &mut history, &vec![dev("COM3", "Uno"), dev("COM4", "Due")], ts(100), &ids(2, "a"), None, Some(3));
    assert_eq!(history.events.len(), 2);
    watch_poll(&mut state, &mut history, &vec![], ts(200), &ids(0, "b"), None, Some(3));
    assert_eq!(history.events.len(), 3);
    assert_eq!(history.events[0].port, "COM4");
    watch_poll(&mut state, &mut history, &vec![dev("COM5", "Nano")], ts(40 * 86_400), &ids(1, "c"), None, None);
    assert_eq!(history.events.len(), 1);
    assert_eq!(history.events[0].port, "COM5");
}

#[test]
fn watch_run_alternates_per_port() {
    let mut state = WatchState::new();
    let mut history = History::new();
    watch_start(&mut state, &mut history, &vec![dev("COM3", "Uno")], ts(10), &ids(1, "a"), None, None);
    watch_poll(&mut state, &mut history, &vec![dev("COM4", "Due")], ts(20), &ids(1, "b"), None, None);
    watch_poll(&mut state, &mut history, &vec![dev("COM3", "Uno"), dev("COM4", "Due")], ts(30), &ids(2, "c"), None, None);
    watch_poll(&mut state, &mut history, &vec![], ts(40), &ids(0, "d"), None, None);
    for port in ["COM3", "COM4"] {
        let evs: Vec<&HistoryEvent> = history.events.iter().filter(|e| e.port == port).collect();
        for (k, e) in evs.iter().enumerate() {
            if k % 2 == 0 {
                assert_eq!(e.event_type, EventType::Connected);
                assert_eq!(e.uptime_secs, None);
            } else {
                assert_eq!(e.event_type, EventType::Disconnected);
                assert!(e.uptime_secs.is_some());
                assert_eq!(e.session_id, evs[k - 1].session_id);
            }
        }
        assert_eq!(evs.len() % 2, 0);
    }
    assert!(state.connected.is_empty());
    assert_eq!(state.ever_seen.len(), 3);
}
