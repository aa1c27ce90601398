use com_com::config::{SessionDevice, SessionState};
use com_com::detection::DeviceInfo;
use com_com::display::{
    device_counts, device_details, device_row, device_rows, history_row, history_rows, recent_lines,
    sorted_nicknames, watch_line,
};
use com_com::history::{EventType, HistoryEvent};
use com_com::port_map::PortMap;
use com_com::timestamp::Timestamp;
use com_com::watch::WatchEventKind;

fn ts(secs: i64) -> Timestamp {
    Timestamp::new(secs, 0).unwrap()
}

fn dev(port: &str, is_arduino: bool) -> DeviceInfo {
    DeviceInfo {
        port: port.to_string(),
        board_name: "Board".to_string(),
        manufacturer: "Maker".to_string(),
        vid: Some(0x2341),
        pid: Some(0x0043),
        serial_number: None,
        product: None,
        is_arduino,
    }
}

#[test]
fn device_rows_show_session_and_nicknames() {
    let mut nicknames: PortMap<String> = PortMap::new();
    nicknames.insert("COM3".to_string(), "main".to_string());
    let mut session = SessionState::new();
    session.connected.insert(
        "COM3".to_string(),
        SessionDevice { connected_at: ts(100), board_name: "Board".to_string(), vid: None, pid: None, session_id: "s".to_string() },
    );
    let devices = vec![dev("COM3", true), dev("COM4", false)];
    let rows = device_rows(&devices, &nicknames, &session.connected, true, ts(220), 0);
    assert_eq!(rows[0].nickname, "main");
    assert_eq!(rows[0].vid_pid, "2341:0043");
    assert_eq!(rows[0].connected_at, "2 minutes ago");
    assert_eq!(rows[0].uptime, "2m 0s");
    assert_eq!(rows[1].nickname, "");
    assert_eq!(rows[1].connected_at, "—");
    assert_eq!(rows[1].uptime, "—");
    let r = device_row(&devices[1], None, Some(("t".to_string(), 5)));
    assert_eq!(r.connected_at, "t");
    assert_eq!(r.uptime, "5s");
    assert_eq!(device_counts(&devices), (2, 1, 1));
    assert_eq!(device_counts(&vec![]), (0, 0, 0));
}

#[test]
fn history_and_recent_rows() {
    let e = HistoryEvent {
        port: "COM3".to_string(),
        board_name: "Uno".to_string(),
        vid: None,
        pid: None,
        event_type: EventType::Disconnected,
        timestamp: ts(1_000),
        session_id: "s".to_string(),
        uptime_secs: Some(65),
    };
    let c = HistoryEvent { event_type: EventType::Connected, uptime_secs: None, ..e.clone() };
    let row = history_row(&e, "then".to_string());
    assert_eq!(row.time, "then");
    assert_eq!(row.event, "Disconnected");
    assert_eq!(row.uptime, "1m 5s");
    let rows = history_rows(&vec![&e, &c], true, ts(1_000 + 7_200), 0);
    assert_eq!(rows[0].time, "2 hours ago");
    assert_eq!(rows[1].event, "Connected");
    assert_eq!(rows[1].uptime, "—");
    let lines = recent_lines(&vec![&e, &c], ts(1_010));
    assert_eq!(lines[0].ago, "10 seconds ago");
    assert_eq!(lines[0].uptime_note, "  (was connected for 1m 5s)");
    assert_eq!(lines[1].uptime_note, "");
}

#[test]
fn nicknames_sorted_by_port() {
    let mut nicknames: PortMap<String> = PortMap::new();
    nicknames.insert("COM3".to_string(), "c".to_string());
    nicknames.insert("COM10".to_string(), "a".to_string());
    nicknames.insert("/dev/ttyUSB0".to_string(), "b".to_string());
    let pairs = sorted_nicknames(&nicknames);
    let ports: Vec<&str> = pairs.iter().map(|(p, _)| p.as_str()).collect();
    assert_eq!(ports, vec!["/dev/ttyUSB0", "COM10", "COM3"]);
    assert_eq!(pairs[1].1, "a");
}

#[test]
fn watch_lines() {
    let l = watch_line(WatchEventKind::Disconnected, Some("main".to_string()), Some(61));
    assert_eq!(l.label, "✘  Disconnected");
    assert_eq!(l.nick, " [main]");
    assert_eq!(l.uptime, "  (uptime 1m 1s)");
    let c = watch_line(WatchEventKind::Connected, None, Some(5));
    assert_eq!(c.label, "✔  Connected   ");
    assert_eq!(c.nick, "");
    assert_eq!(c.uptime, "");
    assert_eq!(watch_line(WatchEventKind::Reconnected, None, None).label, "↺  Reconnected ");
}

#[test]
fn device_rows_show_local_connection_time() {
    let nicknames: PortMap<String> = PortMap::new();
    let mut session = SessionState::new();
    session.connected.insert(
        "COM3".to_string(),
        SessionDevice { connected_at: ts(100), board_name: "Board".to_string(), vid: None, pid: None, session_id: "s".to_string() },
    );
    let rows = device_rows(&vec![dev("COM3", true)], &nicknames, &session.connected, false, ts(220), 0);
    assert_eq!(rows[0].connected_at, "1970-01-01 00:01:40");
    assert_eq!(rows[0].uptime, "2m 0s");
}

#[test]
fn history_rows_show_local_time() {
    let e = HistoryEvent {
        port: "COM3".to_string(),
        board_name: "Uno".to_string(),
        vid: None,
        pid: None,
        event_type: EventType::Connected,
        timestamp: ts(86_400),
        session_id: "s".to_string(),
        uptime_secs: None,
    };
    let rows = history_rows(&vec![&e], false, ts(90_000), -3600);
    assert_eq!(rows[0].time, "1970-01-01 23:00:00");
    assert_eq!(rows[0].uptime, "—");
}

#[test]
fn verbose_details_of_devices() {
    let mut d = dev("COM3", true);
    d.serial_number = Some("SN9".to_string());
    let g = dev("COM4", false);
    let details = device_details(&vec![d, g]);
    assert_eq!(details[0].tag, "[MCU]");
    assert_eq!(details[0].serial_line, Some("      Serial #  : SN9".to_string()));
    assert_eq!(details[0].product_line, None);
    assert_eq!(details[1].tag, "[serial]");
    assert_eq!(details[1].port, "COM4");
}
