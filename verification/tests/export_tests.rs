use com_com::config::{SessionDevice, SessionState};
use com_com::detection::DeviceInfo;
use com_com::export::{build_records, csv_document, csv_table, export_csv, export_record};
use com_com::port_map::PortMap;
use com_com::timestamp::Timestamp;

fn ts(secs: i64) -> Timestamp {
    Timestamp::new(secs, 0).unwrap()
}

fn uno() -> DeviceInfo {
    DeviceInfo {
        port: "COM3".to_string(),
        board_name: "Arduino Uno".to_string(),
        manufacturer: "Arduino LLC".to_string(),
        vid: Some(0x2341),
        pid: Some(0x0001),
        serial_number: Some("85736323".to_string()),
        product: None,
        is_arduino: true,
    }
}

fn pci() -> DeviceInfo {
    DeviceInfo {
        port: "COM1".to_string(),
        board_name: "PCI Serial Port".to_string(),
        manufacturer: "Unknown".to_string(),
        vid: None,
        pid: None,
        serial_number: None,
        product: None,
        is_arduino: false,
    }
}

#[test]
fn record_fields() {
    let r = export_record(&uno(), Some("main".to_string()), Some(("2024-01-01 10:00:00".to_string(), 3725)));
    assert_eq!(r.port, "COM3");
    assert_eq!(r.nickname, Some("main".to_string()));
    assert_eq!(r.vid, Some("2341".to_string()));
    assert_eq!(r.pid, Some("0001".to_string()));
    assert_eq!(r.vid_pid, "2341:0001");
    assert_eq!(r.serial_number, Some("85736323".to_string()));
    assert_eq!(r.connected_at, Some("2024-01-01 10:00:00".to_string()));
    assert_eq!(r.uptime, Some("1h 2m".to_string()));
    assert_eq!(r.uptime_seconds, Some(3725));
    let p = export_record(&pci(), None, None);
    assert_eq!(p.vid, None);
    assert_eq!(p.vid_pid, "N/A");
    assert_eq!(p.uptime, None);
}

#[test]
fn records_follow_nicknames_and_session() {
    let mut nicknames: PortMap<String> = PortMap::new();
    nicknames.insert("COM3".to_string(), "main".to_string());
    let mut session = SessionState::new();
    session.connected.insert(
        "COM3".to_string(),
        SessionDevice {
            connected_at: ts(1_000),
            board_name: "Arduino Uno".to_string(),
            vid: Some(0x2341),
            pid: Some(1),
            session_id: "x".to_string(),
        },
    );
    let devices = vec![uno(), pci()];
    let with = build_records(&devices, &nicknames, &session.connected, true, ts(1_090), 0);
    assert_eq!(with[0].nickname, Some("main".to_string()));
    assert!(with[0].connected_at.is_some());
    assert_eq!(with[0].uptime, Some("1m 30s".to_string()));
    assert_eq!(with[0].uptime_seconds, Some(90));
    assert_eq!(with[1].nickname, None);
    assert_eq!(with[1].uptime_seconds, None);
    let without = build_records(&devices, &nicknames, &session.connected, false, ts(1_090), 0);
    assert_eq!(without[0].connected_at, None);
    assert_eq!(without[0].uptime_seconds, None);
}

#[test]
fn csv_without_timestamps() {
    let records = vec![export_record(&uno(), None, None), export_record(&pci(), Some("a,b".to_string()), None)];
    let table = csv_table(&records, false);
    assert_eq!(table.len(), 3);
    assert_eq!(table[0].len(), 7);
    assert_eq!(table[2][6], "false");
    let doc = csv_document(&records, false).unwrap();
    assert_eq!(
        doc,
        "Port,Board,Nickname,VID:PID,Manufacturer,Serial,Is Arduino\n\
         COM3,Arduino Uno,,2341:0001,Arduino LLC,85736323,true\n\
         COM1,PCI Serial Port,\"a,b\",N/A,Unknown,,false\n"
    );
}

#[test]
fn csv_with_timestamps() {
    let records = vec![
        export_record(&uno(), None, Some(("t".to_string(), -5))),
        export_record(&pci(), None, None),
    ];
    let doc = csv_document(&records, true).unwrap();
    assert_eq!(
        doc,
        "Port,Board,Nickname,VID:PID,Manufacturer,Serial,Is Arduino,Connected At,Uptime,Uptime (s)\n\
         COM3,Arduino Uno,,2341:0001,Arduino LLC,85736323,true,t,0s,-5\n\
         COM1,PCI Serial Port,,N/A,Unknown,,false,,,\n"
    );
}

#[test]
fn csv_export_of_devices() {
    let nicknames: PortMap<String> = PortMap::new();
    let session = SessionState::new();
    let doc = export_csv(&vec![pci()], &nicknames, &session.connected, false, ts(0), 0).unwrap();
    assert_eq!(
        doc,
        "Port,Board,Nickname,VID:PID,Manufacturer,Serial,Is Arduino\nCOM1,PCI Serial Port,,N/A,Unknown,,false\n"
    );
    let empty = export_csv(&vec![], &nicknames, &session.connected, true, ts(0), 0).unwrap();
    assert_eq!(empty, "Port,Board,Nickname,VID:PID,Manufacturer,Serial,Is Arduino,Connected At,Uptime,Uptime (s)\n");
}

#[test]
fn csv_quotes_fields_that_need_it() {
    let mut odd = pci();
    odd.board_name = "say \"hi\"".to_string();
    odd.manufacturer = "line\nbreak".to_string();
    odd.serial_number = Some("cr\rhere".to_string());
    let doc = csv_document(&vec![export_record(&odd, Some("x,y".to_string()), None)], false).unwrap();
    assert_eq!(
        doc,
        "Port,Board,Nickname,VID:PID,Manufacturer,Serial,Is Arduino\n\
         COM1,\"say \"\"hi\"\"\",\"x,y\",N/A,\"line\nbreak\",\"cr\rhere\",false\n"
    );
}

#[test]
fn csv_export_with_local_connection_time() {
    let nicknames: PortMap<String> = PortMap::new();
    let mut session = SessionState::new();
    session.connected.insert(
        "COM3".to_string(),
        SessionDevice { connected_at: ts(1_000), board_name: "Arduino Uno".to_string(), vid: None, pid: None, session_id: "s".to_string() },
    );
    let doc = export_csv(&vec![uno()], &nicknames, &session.connected, true, ts(1_090), 7200).unwrap();
    assert_eq!(
        doc,
        "Port,Board,Nickname,VID:PID,Manufacturer,Serial,Is Arduino,Connected At,Uptime,Uptime (s)\n\
         COM3,Arduino Uno,,2341:0001,Arduino LLC,85736323,true,1970-01-01 02:16:40,1m 30s,90\n"
    );
}

#[test]
fn csv_export_reads_back() {
    let mut odd = pci();
    odd.board_name = "say \"hi\", then\nleave".to_string();
    odd.serial_number = Some("".to_string());
    let records = vec![export_record(&uno(), Some("main, left".to_string()), None), export_record(&odd, None, None)];
    let doc = csv_document(&records, false).unwrap();
    let mut reader = csv::ReaderBuilder::new().has_headers(false).from_reader(doc.as_bytes());
    let rows: Vec<Vec<String>> = reader
        .records()
        .map(|r| r.unwrap().iter().map(|f| f.to_string()).collect())
        .collect();
    let table = csv_table(&records, false);
    assert_eq!(rows, table);
    assert_eq!(rows[2][1], "say \"hi\", then\nleave");
    assert_eq!(rows[1][2], "main, left");
}
