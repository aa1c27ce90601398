use com_com::cli::{choose_command, copy_choices, parse_export_format, parse_selection, selected_port, Cli, Command, ExportFormat};
use com_com::detection::DeviceInfo;
use com_com::port_map::PortMap;

fn base() -> Cli {
    Cli {
        watch: false,
        history: false,
        days: 1,
        export: None,
        output: None,
        include_timestamps: false,
        show_recent: false,
        recent_mins: 30,
        relative_time: false,
        copy: false,
        filter: "all".to_string(),
        clear_history: false,
        nickname: None,
        remove_nickname: None,
        list_nicknames: false,
        interval: 1000,
        all: false,
        verbose: false,
    }
}

fn dev(port: &str) -> DeviceInfo {
    DeviceInfo {
        port: port.to_string(),
        board_name: "Board".to_string(),
        manufacturer: "M".to_string(),
        vid: None,
        pid: None,
        serial_number: None,
        product: None,
        is_arduino: false,
    }
}

#[test]
fn command_precedence() {
    let mut c = base();
    c.nickname = Some(vec!["COM3".to_string(), "main".to_string()]);
    c.remove_nickname = Some("COM4".to_string());
    c.watch = true;
    match choose_command(c) {
        Command::SetNickname { port, name } => {
            assert_eq!(port, "COM3");
            assert_eq!(name, "main");
        }
        other => panic!("unexpected {:?}", other),
    }
    let mut c = base();
    c.remove_nickname = Some("COM4".to_string());
    c.list_nicknames = true;
    assert!(matches!(choose_command(c), Command::RemoveNickname { port } if port == "COM4"));
    let mut c = base();
    c.history = true;
    c.days = 7;
    c.show_recent = true;
    assert!(matches!(choose_command(c), Command::ShowHistory { days: 7 }));
    let mut c = base();
    c.show_recent = true;
    c.watch = true;
    assert!(matches!(choose_command(c), Command::ShowRecent { minutes: 30 }));
    let mut c = base();
    c.watch = true;
    c.filter = "arduino".to_string();
    assert!(matches!(choose_command(c), Command::Watch { filter, interval: 1000 } if filter == "arduino"));
    let mut c = base();
    c.watch = true;
    c.filter = "arduino".to_string();
    c.all = true;
    assert!(matches!(choose_command(c), Command::Watch { filter, .. } if filter == "all"));
    let mut c = base();
    c.export = Some("CSV".to_string());
    c.copy = true;
    assert!(matches!(choose_command(c), Command::Export { format: ExportFormat::Csv, .. }));
    let mut c = base();
    c.copy = true;
    assert!(matches!(choose_command(c), Command::Copy { .. }));
    assert!(matches!(choose_command(base()), Command::ShowDevices { filter } if filter == "all"));
    let mut c = base();
    c.clear_history = true;
    c.history = true;
    assert!(matches!(choose_command(c), Command::ClearHistory));
}

#[test]
fn export_formats() {
    assert!(matches!(parse_export_format("json"), ExportFormat::Json));
    assert!(matches!(parse_export_format("JSON"), ExportFormat::Json));
    assert!(matches!(parse_export_format("Csv"), ExportFormat::Csv));
    assert!(matches!(parse_export_format("TABLE"), ExportFormat::Table));
    assert!(matches!(parse_export_format("XmL"), ExportFormat::Unknown(s) if s == "xml"));
    assert!(matches!(parse_export_format(""), ExportFormat::Unknown(s) if s.is_empty()));
}

#[test]
fn selections() {
    assert_eq!(parse_selection("2\n", 3), Some(1));
    assert_eq!(parse_selection("  1  ", 3), Some(0));
    assert_eq!(parse_selection("+3", 3), Some(2));
    assert_eq!(parse_selection("\u{3000}1\u{a0}", 1), Some(0));
    assert_eq!(parse_selection("0", 3), None);
    assert_eq!(parse_selection("4", 3), None);
    assert_eq!(parse_selection("-1", 3), None);
    assert_eq!(parse_selection("+", 3), None);
    assert_eq!(parse_selection("", 3), None);
    assert_eq!(parse_selection("   ", 3), None);
    assert_eq!(parse_selection("1 2", 3), None);
    assert_eq!(parse_selection("abc", 3), None);
    assert_eq!(parse_selection("99999999999999999999999", 3), None);
    assert_eq!(parse_selection("007", 9), Some(6));
}

#[test]
fn copy_menu() {
    let mut nicknames: PortMap<String> = PortMap::new();
    nicknames.insert("COM4".to_string(), "sensor".to_string());
    let devices = vec![dev("COM3"), dev("COM4")];
    let choices = copy_choices(&devices, &nicknames);
    assert_eq!(choices[0].number, "1");
    assert_eq!(choices[0].nick, "");
    assert_eq!(choices[1].number, "2");
    assert_eq!(choices[1].nick, "  (sensor)");
    assert_eq!(selected_port(&devices, " 2 "), Some("COM4".to_string()));
    assert_eq!(selected_port(&devices, "3"), None);
}
