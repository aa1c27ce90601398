use com_com::detection::{
    device_from_port, is_known_mcu, lookup_board_name, lookup_manufacturer, select_devices,
    DeviceInfo, SerialPortInfo, SerialPortType, UsbPortInfo,
};

fn usb(name: &str, vid: u16, pid: u16, manufacturer: Option<&str>) -> SerialPortInfo {
    SerialPortInfo {
        port_name: name.to_string(),
        port_type: SerialPortType::UsbPort(UsbPortInfo {
            vid,
            pid,
            serial_number: Some("SN1".to_string()),
            manufacturer: manufacturer.map(|m| m.to_string()),
            product: Some("Prod".to_string()),
        }),
    }
}

fn other(name: &str, t: SerialPortType) -> SerialPortInfo {
    SerialPortInfo { port_name: name.to_string(), port_type: t }
}

fn ports(devices: &[DeviceInfo]) -> Vec<String> {
    devices.iter().map(|d| d.port.clone()).collect()
}

#[test]
fn board_names_by_ids() {
    assert_eq!(lookup_board_name(0x2341, 0x0043), Some("Arduino Uno R3".to_string()));
    assert_eq!(lookup_board_name(0x2341, 0x0036), Some("Arduino Leonardo".to_string()));
    assert_eq!(lookup_board_name(0x2341, 0x003B), Some("Arduino Leonardo".to_string()));
    assert_eq!(lookup_board_name(0x0D28, 0x0204), Some("BBC micro:bit".to_string()));
    assert_eq!(lookup_board_name(0x1A86, 0x7523), Some("Arduino Nano (CH340)".to_string()));
    assert_eq!(lookup_board_name(0x2341, 0x9999), None);
    assert_eq!(lookup_board_name(0x0043, 0x2341), None);
}

#[test]
fn manufacturers_by_vendor() {
    assert_eq!(lookup_manufacturer(0x0403), "FTDI");
    assert_eq!(lookup_manufacturer(0x2CCF), "Nordic Semiconductor");
    assert_eq!(lookup_manufacturer(0xBEEF), "Unknown (BEEF)");
    assert_eq!(lookup_manufacturer(0x00AB), "Unknown (00AB)");
    assert_eq!(lookup_manufacturer(0), "Unknown (0000)");
}

#[test]
fn known_vendors() {
    assert!(is_known_mcu(0x2341));
    assert!(is_known_mcu(0x10C4));
    assert!(is_known_mcu(0x2CCF));
    assert!(!is_known_mcu(0x1234));
    assert!(!is_known_mcu(0));
}

#[test]
fn vid_pid_text() {
    let d = device_from_port(usb("COM3", 0x2341, 0x43, None), "all").unwrap();
    assert_eq!(d.vid_pid_str(), "2341:0043");
    let p = device_from_port(other("ttyS0", SerialPortType::PciPort), "all").unwrap();
    assert_eq!(p.vid_pid_str(), "N/A");
}

#[test]
fn usb_device_fields() {
    let d = device_from_port(usb("COM3", 0x2341, 0x0043, Some("Arduino SA")), "all").unwrap();
    assert_eq!(d.port, "COM3");
    assert_eq!(d.board_name, "Arduino Uno R3");
    assert_eq!(d.manufacturer, "Arduino SA");
    assert_eq!(d.vid, Some(0x2341));
    assert_eq!(d.pid, Some(0x0043));
    assert_eq!(d.serial_number, Some("SN1".to_string()));
    assert_eq!(d.product, Some("Prod".to_string()));
    assert!(d.is_arduino);
}

#[test]
fn fallback_board_names_and_manufacturers() {
    let mcu = device_from_port(usb("COM4", 0x2341, 0x9999, Some("")), "all").unwrap();
    assert_eq!(mcu.board_name, "Microcontroller (2341:9999)");
    assert_eq!(mcu.manufacturer, "Arduino LLC");
    let generic = device_from_port(usb("COM5", 0x1234, 0x00ab, None), "all").unwrap();
    assert_eq!(generic.board_name, "USB Serial (1234:00AB)");
    assert_eq!(generic.manufacturer, "Unknown (1234)");
    assert!(!generic.is_arduino);
}

#[test]
fn non_usb_ports_only_under_all() {
    let pci = device_from_port(other("ttyS0", SerialPortType::PciPort), "all").unwrap();
    assert_eq!(pci.board_name, "PCI Serial Port");
    assert_eq!(pci.manufacturer, "Unknown");
    assert_eq!(pci.vid, None);
    assert!(!pci.is_arduino);
    let bt = device_from_port(other("rfcomm0", SerialPortType::BluetoothPort), "all").unwrap();
    assert_eq!(bt.board_name, "Bluetooth Serial Port");
    let unk = device_from_port(other("x", SerialPortType::Unknown), "all").unwrap();
    assert_eq!(unk.board_name, "Unknown Port Type");
    assert!(device_from_port(other("ttyS0", SerialPortType::PciPort), "arduino").is_none());
    assert!(device_from_port(other("ttyS0", SerialPortType::PciPort), "usb").is_none());
}

#[test]
fn filters_select_devices() {
    let list = || {
        vec![
            usb("COM3", 0x2341, 0x0043, None),
            usb("COM4", 0x1234, 0x5678, None),
            other("COM1", SerialPortType::PciPort),
        ]
    };
    assert_eq!(ports(&select_devices(list(), "arduino")), vec!["COM3"]);
    assert_eq!(ports(&select_devices(list(), "generic")), vec!["COM4"]);
    assert_eq!(ports(&select_devices(list(), "usb")), vec!["COM3", "COM4"]);
    assert_eq!(ports(&select_devices(list(), "all")), vec!["COM1", "COM3", "COM4"]);
}

#[test]
fn natural_port_order() {
    let list = vec![
        usb("COM10", 0x2341, 1, None),
        usb("COM3", 0x2341, 1, None),
        usb("COM2", 0x2341, 1, None),
        usb("COM21", 0x2341, 1, None),
    ];
    assert_eq!(ports(&select_devices(list, "all")), vec!["COM2", "COM3", "COM10", "COM21"]);
}

#[test]
fn names_without_numbers_sort_by_text() {
    let list = vec![
        usb("/dev/ttyUSBb", 0x2341, 1, None),
        usb("/dev/ttyUSBa", 0x2341, 1, None),
        usb("/dev/ttyACM", 0x2341, 1, None),
    ];
    assert_eq!(
        ports(&select_devices(list, "all")),
        vec!["/dev/ttyACM", "/dev/ttyUSBa", "/dev/ttyUSBb"]
    );
}

#[test]
fn equal_numbers_keep_reported_order() {
    let list = vec![
        usb("/dev/ttyUSB0", 0x2341, 1, None),
        usb("/dev/ttyACM0", 0x2341, 1, None),
        usb("COM0", 0x2341, 1, None),
    ];
    assert_eq!(ports(&select_devices(list, "all")), vec!["/dev/ttyUSB0", "/dev/ttyACM0", "COM0"]);
}

#[test]
fn numbers_too_large_sort_by_text() {
    let list = vec![
        usb("COM99999999999", 0x2341, 1, None),
        usb("COM1", 0x2341, 1, None),
    ];
    // The first name's number does not fit in a u32, so the two compare as text.
    assert_eq!(ports(&select_devices(list, "all")), vec!["COM1", "COM99999999999"]);
}

#[test]
fn named_boards_come_from_known_vendors() {
    let pairs = [(0x2341, 0x0001), (0x1A86, 0x55D4), (0x10C4, 0xEA70), (0x0403, 0x6015), (0x0483, 0xDF11),
        (0x16C0, 0x0483), (0x239A, 0x802B), (0x2E8A, 0xF00A), (0x2886, 0x8052), (0x1B4F, 0x9206), (0x0D28, 0x0204)];
    for (vid, pid) in pairs {
        assert!(lookup_board_name(vid, pid).is_some());
        assert!(is_known_mcu(vid));
    }
}

#[test]
fn unknown_manufacturer_marks_unknown_vendor() {
    for vid in [0x2341u16, 0x2A03, 0x03EB, 0x1D50, 0x1234, 0xFFFF] {
        assert_eq!(is_known_mcu(vid), !lookup_manufacturer(vid).starts_with("Unknown ("));
    }
}
