use com_com::config::{fresh_session_ids, reconcile_session, refresh_session, Config, SessionDevice, SessionState};
use com_com::detection::DeviceInfo;
use com_com::history::{EventType, History};
use com_com::port_map::PortMap;
use com_com::timestamp::Timestamp;

fn ts(secs: i64) -> Timestamp {
    Timestamp::new(secs, 0).unwrap()
}

fn device(port: &str, board: &str) -> DeviceInfo {
    DeviceInfo {
        port: port.to_string(),
        board_name: board.to_string(),
        manufacturer: "Arduino LLC".to_string(),
        vid: Some(0x2341),
        pid: Some(0x0043),
        serial_number: None,
        product: None,
        is_arduino: true,
    }
}

#[test]
fn nickname_map_reads_back_writes() {
    let mut cfg = Config::new();
    assert!(cfg.nicknames.is_empty());
    cfg.nicknames.insert("COM3".to_string(), "main-board".to_string());
    cfg.nicknames.insert("COM4".to_string(), "sensor".to_string());
    assert_eq!(cfg.nicknames.get("COM3"), Some(&"main-board".to_string()));
    cfg.nicknames.insert("COM3".to_string(), "renamed".to_string());
    assert_eq!(cfg.nicknames.get("COM3"), Some(&"renamed".to_string()));
    assert_eq!(cfg.nicknames.len(), 2);
    assert_eq!(cfg.nicknames.remove("COM3"), Some("renamed".to_string()));
    assert_eq!(cfg.nicknames.get("COM3"), None);
    assert_eq!(cfg.nicknames.remove("COM3"), None);
    assert_eq!(cfg.nicknames.get("COM4"), Some(&"sensor".to_string()));
    assert!(cfg.nicknames.contains_key("COM4"));
    assert!(!cfg.nicknames.contains_key("com4"));
}

#[test]
fn session_records_arrivals_and_departures() {
    let mut session = SessionState::new();
    let mut history = History::new();
    let devices = vec![device("COM3", "Arduino Uno"), device("COM4", "Teensy")];
    let ids = vec!["a".to_string(), "b".to_string()];
    reconcile_session(&mut session, &mut history, &devices, ts(1000), &ids, None, None);
    assert_eq!(session.connected.len(), 2);
    assert_eq!(history.events.len(), 2);
    assert_eq!(history.events[0].event_type, EventType::Connected);
    assert_eq!(history.events[0].port, "COM3");
    assert_eq!(history.events[0].session_id, "a");
    assert_eq!(history.events[1].session_id, "b");
    assert_eq!(history.events[1].uptime_secs, None);
    let sess: &SessionDevice = session.connected.get("COM4").unwrap();
    assert_eq!(sess.board_name, "Teensy");
    assert_eq!(sess.connected_at, ts(1000));

    // Same devices again: nothing changes.
    reconcile_session(&mut session, &mut history, &devices, ts(2000), &ids, None, None);
    assert_eq!(history.events.len(), 2);

    // COM4 goes away, COM5 arrives.
    let devices2 = vec![device("COM3", "Arduino Uno"), device("COM5", "Due")];
    let ids2 = vec!["c".to_string(), "d".to_string()];
    reconcile_session(&mut session, &mut history, &devices2, ts(3000), &ids2, None, None);
    assert_eq!(history.events.len(), 4);
    let gone = &history.events[2];
    assert_eq!(gone.port, "COM4");
    assert_eq!(gone.event_type, EventType::Disconnected);
    assert_eq!(gone.uptime_secs, Some(2000));
    assert_eq!(gone.session_id, "b");
    assert_eq!(gone.timestamp, ts(3000));
    let arrived = &history.events[3];
    assert_eq!(arrived.port, "COM5");
    assert_eq!(arrived.session_id, "d");
    assert!(session.connected.get("COM4").is_none());
    assert!(session.connected.get("COM5").is_some());
}

#[test]
fn duplicate_ports_count_once() {
    let mut session = SessionState::new();
    let mut history = History::new();
    let devices = vec![device("COM3", "first"), device("COM3", "second")];
    let ids = vec!["a".to_string(), "b".to_string()];
    reconcile_session(&mut session, &mut history, &devices, ts(10), &ids, None, None);
    assert_eq!(history.events.len(), 1);
    assert_eq!(session.connected.get("COM3").unwrap().board_name, "first");
}

#[test]
fn fresh_ids_for_new_devices() {
    let mut session = SessionState::new();
    let mut history = History::new();
    let devices = vec![device("COM3", "Arduino Uno")];
    refresh_session(&mut session, &mut history, &devices, ts(10), None, None);
    assert_eq!(history.events.len(), 1);
    assert_eq!(history.events[0].session_id.len(), 36);
    let empty: PortMap<String> = PortMap::new();
    assert!(empty.is_empty());
}

#[test]
fn fresh_ids_are_v4_uuids() {
    let ids = fresh_session_ids(3);
    assert_eq!(ids.len(), 3);
    for id in &ids {
        let c: Vec<char> = id.chars().collect();
        assert_eq!(c.len(), 36);
        for (k, ch) in c.iter().enumerate() {
            if k == 8 || k == 13 || k == 18 || k == 23 {
                assert_eq!(*ch, '-');
            } else {
                assert!(ch.is_ascii_digit() || ('a'..='f').contains(ch));
            }
        }
        assert_eq!(c[14], '4');
        assert!(matches!(c[19], '8' | '9' | 'a' | 'b'));
    }
    assert_ne!(ids[0], ids[1]);
}

#[test]
fn refresh_keeps_history_within_limits() {
    let day = 86_400;
    let mut session = SessionState::new();
    let mut history = History::new();
    reconcile_session(&mut session, &mut history, &vec![device("COM3", "Uno")], ts(0), &vec!["a".to_string()], None, None);
    reconcile_session(&mut session, &mut history, &vec![], ts(day), &vec![], None, None);
    assert_eq!(history.events.len(), 2);
    refresh_session(&mut session, &mut history, &vec![device("COM4", "Due")], ts(40 * day), None, None);
    assert_eq!(history.events.len(), 1);
    assert_eq!(history.events[0].port, "COM4");
    assert_eq!(history.events[0].event_type, EventType::Connected);
    reconcile_session(&mut session, &mut history, &vec![], ts(40 * day + 5), &vec![], Some(365), Some(1));
    assert_eq!(history.events.len(), 1);
    assert_eq!(history.events[0].event_type, EventType::Disconnected);
}
