//! Board identification by USB vendor and product ID, the device record, and
//! the selection of devices from the serial ports that the system reports.

use vstd::prelude::*;
use vstd::multiset::Multiset;
use vstd::string::*;

use crate::port_order::{lemma_port_before_asymmetric, port_before, port_before_exec};
use crate::text::{hex4, push_hex4, push_str, same_text};

verus! {

/// Vendor IDs known to belong to Arduino / microcontroller chips, with the
/// vendor's name.
pub open spec fn vendor_table() -> Seq<(u16, &'static str)> {
    seq![
        (0x2341u16, "Arduino LLC"),
        (0x2A03u16, "Arduino (clone)"),
        (0x1A86u16, "WCH (CH340/CH341)"),
        (0x10C4u16, "Silicon Labs"),
        (0x0403u16, "FTDI"),
        (0x0483u16, "STMicroelectronics"),
        (0x16C0u16, "PJRC (Teensy)"),
        (0x239Au16, "Adafruit"),
        (0x2E8Au16, "Raspberry Pi"),
        (0x2886u16, "Seeed Studio"),
        (0x1B4Fu16, "SparkFun"),
        (0x04D8u16, "Microchip Technology"),
        (0x03EBu16, "Atmel"),
        (0x1D50u16, "OpenMoko / Black Magic Probe"),
        (0x0D28u16, "ARM mbed"),
        (0x2CCFu16, "Nordic Semiconductor"),
    ]
}

/// (VID, PID, human-readable board name) of the boards known by name.
pub open spec fn board_table() -> Seq<(u16, u16, &'static str)> {
    seq![
        (0x2341u16, 0x0001u16, "Arduino Uno"),
        (0x2341u16, 0x0010u16, "Arduino Mega 2560"),
        (0x2341u16, 0x0036u16, "Arduino Leonardo"),
        (0x2341u16, 0x003Bu16, "Arduino Leonardo"),
        (0x2341u16, 0x003Fu16, "Arduino Mega ADK"),
        (0x2341u16, 0x0042u16, "Arduino Mega 2560 R3"),
        (0x2341u16, 0x0043u16, "Arduino Uno R3"),
        (0x2341u16, 0x004Du16, "Arduino Pro Micro"),
        (0x2341u16, 0x0058u16, "Arduino Nano Every"),
        (0x2341u16, 0x0070u16, "Arduino Due"),
        (0x2341u16, 0x0243u16, "Arduino Uno R4 Minima"),
        (0x2341u16, 0x0364u16, "Arduino Uno R4 WiFi"),
        (0x2341u16, 0x804Du16, "Arduino MKR WiFi 1010"),
        (0x2341u16, 0x8057u16, "Arduino Nano 33 BLE"),
        (0x1A86u16, 0x7522u16, "Arduino Nano (CH341)"),
        (0x1A86u16, 0x7523u16, "Arduino Nano (CH340)"),
        (0x1A86u16, 0x55D4u16, "Arduino (CH343)"),
        (0x10C4u16, 0xEA60u16, "ESP32 / CP210x"),
        (0x10C4u16, 0xEA70u16, "ESP32-S3 / CP210x"),
        (0x0403u16, 0x6001u16, "FTDI FT232R"),
        (0x0403u16, 0x6010u16, "FTDI FT2232"),
        (0x0403u16, 0x6015u16, "FTDI FT231X"),
        (0x0483u16, 0x5740u16, "STM32 Virtual COM"),
        (0x0483u16, 0xDF11u16, "STM32 DFU Bootloader"),
        (0x16C0u16, 0x0483u16, "Teensy"),
        (0x239Au16, 0x800Cu16, "Adafruit Feather M0"),
        (0x239Au16, 0x8023u16, "Adafruit Feather M4"),
        (0x239Au16, 0x802Bu16, "Adafruit Metro M4"),
        (0x2E8Au16, 0x000Au16, "Raspberry Pi Pico"),
        (0x2E8Au16, 0x000Bu16, "Raspberry Pi Pico W"),
        (0x2E8Au16, 0xF00Au16, "Raspberry Pi Pico (UF2)"),
        (0x2886u16, 0x802Fu16, "Seeed XIAO RP2040"),
        (0x2886u16, 0x8052u16, "Seeed XIAO ESP32S3"),
        (0x1B4Fu16, 0x9205u16, "SparkFun Pro Micro 3.3V"),
        (0x1B4Fu16, 0x9206u16, "SparkFun Pro Micro 5V"),
        (0x0D28u16, 0x0204u16, "BBC micro:bit"),
    ]
}

fn vendor_entries() -> (t: Vec<(u16, &'static str)>)
    ensures
        t@ == vendor_table(),
{
    let t = vec![
        (0x2341u16, "Arduino LLC"),
        (0x2A03u16, "Arduino (clone)"),
        (0x1A86u16, "WCH (CH340/CH341)"),
        (0x10C4u16, "Silicon Labs"),
        (0x0403u16, "FTDI"),
        (0x0483u16, "STMicroelectronics"),
        (0x16C0u16, "PJRC (Teensy)"),
        (0x239Au16, "Adafruit"),
        (0x2E8Au16, "Raspberry Pi"),
        (0x2886u16, "Seeed Studio"),
        (0x1B4Fu16, "SparkFun"),
        (0x04D8u16, "Microchip Technology"),
        (0x03EBu16, "Atmel"),
        (0x1D50u16, "OpenMoko / Black Magic Probe"),
        (0x0D28u16, "ARM mbed"),
        (0x2CCFu16, "Nordic Semiconductor"),
    ];
    assert(t@ =~= vendor_table());
    t
}

fn board_entries() -> (t: Vec<(u16, u16, &'static str)>)
    ensures
        t@ == board_table(),
{
    let t = vec![
        (0x2341u16, 0x0001u16, "Arduino Uno"),
        (0x2341u16, 0x0010u16, "Arduino Mega 2560"),
        (0x2341u16, 0x0036u16, "Arduino Leonardo"),
        (0x2341u16, 0x003Bu16, "Arduino Leonardo"),
        (0x2341u16, 0x003Fu16, "Arduino Mega ADK"),
        (0x2341u16, 0x0042u16, "Arduino Mega 2560 R3"),
        (0x2341u16, 0x0043u16, "Arduino Uno R3"),
        (0x2341u16, 0x004Du16, "Arduino Pro Micro"),
        (0x2341u16, 0x0058u16, "Arduino Nano Every"),
        (0x2341u16, 0x0070u16, "Arduino Due"),
        (0x2341u16, 0x0243u16, "Arduino Uno R4 Minima"),
        (0x2341u16, 0x0364u16, "Arduino Uno R4 WiFi"),
        (0x2341u16, 0x804Du16, "Arduino MKR WiFi 1010"),
        (0x2341u16, 0x8057u16, "Arduino Nano 33 BLE"),
        (0x1A86u16, 0x7522u16, "Arduino Nano (CH341)"),
        (0x1A86u16, 0x7523u16, "Arduino Nano (CH340)"),
        (0x1A86u16, 0x55D4u16, "Arduino (CH343)"),
        (0x10C4u16, 0xEA60u16, "ESP32 / CP210x"),
        (0x10C4u16, 0xEA70u16, "ESP32-S3 / CP210x"),
        (0x0403u16, 0x6001u16, "FTDI FT232R"),
        (0x0403u16, 0x6010u16, "FTDI FT2232"),
        (0x0403u16, 0x6015u16, "FTDI FT231X"),
        (0x0483u16, 0x5740u16, "STM32 Virtual COM"),
        (0x0483u16, 0xDF11u16, "STM32 DFU Bootloader"),
        (0x16C0u16, 0x0483u16, "Teensy"),
        (0x239Au16, 0x800Cu16, "Adafruit Feather M0"),
        (0x239Au16, 0x8023u16, "Adafruit Feather M4"),
        (0x239Au16, 0x802Bu16, "Adafruit Metro M4"),
        (0x2E8Au16, 0x000Au16, "Raspberry Pi Pico"),
        (0x2E8Au16, 0x000Bu16, "Raspberry Pi Pico W"),
        (0x2E8Au16, 0xF00Au16, "Raspberry Pi Pico (UF2)"),
        (0x2886u16, 0x802Fu16, "Seeed XIAO RP2040"),
        (0x2886u16, 0x8052u16, "Seeed XIAO ESP32S3"),
        (0x1B4Fu16, 0x9205u16, "SparkFun Pro Micro 3.3V"),
        (0x1B4Fu16, 0x9206u16, "SparkFun Pro Micro 5V"),
        (0x0D28u16, 0x0204u16, "BBC micro:bit"),
    ];
    assert(t@ =~= board_table());
    t
}

/// The name of the first board in `table` with the given IDs.
pub open spec fn first_board_name(table: Seq<(u16, u16, &'static str)>, vid: u16, pid: u16) -> Option<Seq<char>>
    decreases table.len(),
{
    if table.len() == 0 {
        None
    } else if table[0].0 == vid && table[0].1 == pid {
        Some(table[0].2@)
    } else {
        first_board_name(table.drop_first(), vid, pid)
    }
}

/// The name of the first vendor in `table` with the given ID.
pub open spec fn first_vendor_name(table: Seq<(u16, &'static str)>, vid: u16) -> Option<Seq<char>>
    decreases table.len(),
{
    if table.len() == 0 {
        None
    } else if table[0].0 == vid {
        Some(table[0].1@)
    } else {
        first_vendor_name(table.drop_first(), vid)
    }
}

/// The board known by these IDs, if any.
pub open spec fn spec_board_name(vid: u16, pid: u16) -> Option<Seq<char>> {
    first_board_name(board_table(), vid, pid)
}

/// The vendor ID belongs to a known microcontroller vendor.
pub open spec fn spec_is_known_mcu(vid: u16) -> bool {
    exists|i: int| 0 <= i < vendor_table().len() && #[trigger] vendor_table()[i].0 == vid
}

/// The manufacturer's name for a vendor ID: the known vendor's name, or
/// `Unknown (XXXX)` with the ID in four hex digits.
pub open spec fn spec_manufacturer(vid: u16) -> Seq<char> {
    match first_vendor_name(vendor_table(), vid) {
        Some(name) => name,
        None => "Unknown ("@ + hex4(vid) + ")"@,
    }
}

/// The view of an optional string.
pub open spec fn opt_view(o: Option<String>) -> Option<Seq<char>> {
    match o {
        Some(s) => Some(s@),
        None => None,
    }
}

proof fn lemma_first_vendor_some(table: Seq<(u16, &'static str)>, vid: u16)
    ensures
        first_vendor_name(table, vid) is Some <==> exists|i: int| 0 <= i < table.len() && #[trigger] table[i].0 == vid,
    decreases table.len(),
{
    if table.len() > 0 {
        lemma_first_vendor_some(table.drop_first(), vid);
        if table[0].0 != vid {
            assert forall|i: int| 0 <= i < table.len() && #[trigger] table[i].0 == vid implies
                0 <= i - 1 < table.drop_first().len() && table.drop_first()[i - 1].0 == vid by {
                assert(i != 0);
            }
            if first_vendor_name(table, vid) is Some {
                let j = choose|j: int| 0 <= j < table.drop_first().len() && #[trigger] table.drop_first()[j].0 == vid;
                assert(table[j + 1].0 == vid);
            }
        }
    }
}

/// The board name known for a (VID, PID) pair: the first entry of the board
/// table with these IDs.
pub fn lookup_board_name(vid: u16, pid: u16) -> (r: Option<String>)
    ensures
        opt_view(r) == spec_board_name(vid, pid),
{
    let table = board_entries();
    assert(table@.skip(0) =~= table@);
    let mut i: usize = 0;
    while i < table.len()
        invariant
            table@ == board_table(),
            i <= table@.len(),
            first_board_name(table@.skip(i as int), vid, pid) == spec_board_name(vid, pid),
        decreases table.len() - i,
    {
        assert(table@.skip(i as int).drop_first() =~= table@.skip(i + 1));
        let e = table[i];
        if e.0 == vid && e.1 == pid {
            return Some(String::from_str(e.2));
        }
        i = i + 1;
    }
    None
}

/// The manufacturer's name for a vendor ID: the known vendor's name, or
/// `Unknown (XXXX)` with the ID in four upper-case hex digits.
pub fn lookup_manufacturer(vid: u16) -> (r: String)
    ensures
        r@ == spec_manufacturer(vid),
{
    let table = vendor_entries();
    assert(table@.skip(0) =~= table@);
    let mut i: usize = 0;
    while i < table.len()
        invariant
            table@ == vendor_table(),
            i <= table@.len(),
            first_vendor_name(table@.skip(i as int), vid) == first_vendor_name(vendor_table(), vid),
        decreases table.len() - i,
    {
        assert(table@.skip(i as int).drop_first() =~= table@.skip(i + 1));
        let e = table[i];
        if e.0 == vid {
            return String::from_str(e.1);
        }
        i = i + 1;
    }
    let mut s = String::from_str("Unknown (");
    push_hex4(&mut s, vid);
    push_str(&mut s, ")");
    s
}

/// A vendor's manufacturer name comes from the vendor table exactly when the
/// vendor is a known microcontroller vendor (otherwise it reads `Unknown (XXXX)`).
pub proof fn lemma_known_vendor_named(vid: u16)
    ensures
        first_vendor_name(vendor_table(), vid) is Some <==> spec_is_known_mcu(vid),
{
    lemma_first_vendor_some(vendor_table(), vid);
}

proof fn lemma_first_board_row(table: Seq<(u16, u16, &'static str)>, vid: u16, pid: u16)
    ensures
        first_board_name(table, vid, pid) matches Some(n) ==> exists|i: int| 0 <= i < table.len()
            && #[trigger] table[i] == (vid, pid, table[i].2) && table[i].2@ == n,
        first_board_name(table, vid, pid) is None ==> forall|i: int| 0 <= i < table.len()
            ==> !(#[trigger] table[i].0 == vid && table[i].1 == pid),
    decreases table.len(),
{
    if table.len() > 0 {
        let t = table.drop_first();
        lemma_first_board_row(t, vid, pid);
        if !(table[0].0 == vid && table[0].1 == pid) {
            if first_board_name(table, vid, pid) is Some {
                let j = choose|j: int| 0 <= j < t.len() && #[trigger] t[j] == (vid, pid, t[j].2)
                    && t[j].2@ == first_board_name(table, vid, pid).unwrap();
                assert(table[j + 1] == t[j]);
            } else {
                assert forall|i: int| 0 <= i < table.len() implies !(#[trigger] table[i].0 == vid && table[i].1 == pid) by {
                    if i > 0 {
                        assert(table[i] == t[i - 1]);
                    }
                }
            }
        } else {
            assert(table[0] == (vid, pid, table[0].2));
        }
    }
}

/// No two rows of the board table have the same IDs.
#[verifier::rlimit(100)]
#[verifier::spinoff_prover]
pub proof fn lemma_board_ids_unique()
    ensures
        forall|i: int, j: int| 0 <= i < board_table().len() && 0 <= j < board_table().len() && i != j
            ==> !(#[trigger] board_table()[i].0 == #[trigger] board_table()[j].0 && board_table()[i].1 == board_table()[j].1),
{
    let b = board_table();
    assert forall|i: int, j: int| 0 <= i < b.len() && 0 <= j < b.len() && i != j
        implies !(#[trigger] b[i].0 == #[trigger] b[j].0 && b[i].1 == b[j].1) by {
        assert(b[i].1 == b[j].1 ==> b[i].0 != b[j].0 || i == j);
    }
}

/// A board name is found exactly for the IDs of a row of the board table,
/// and it is that row's name (no two rows share IDs); every board known by name is made by a known
/// microcontroller vendor.
pub proof fn lemma_board_names(vid: u16, pid: u16)
    ensures
        spec_board_name(vid, pid) matches Some(n) ==> exists|i: int| 0 <= i < board_table().len()
            && #[trigger] board_table()[i] == (vid, pid, board_table()[i].2) && board_table()[i].2@ == n,
        spec_board_name(vid, pid) is None <==> forall|i: int| 0 <= i < board_table().len()
            ==> !(#[trigger] board_table()[i].0 == vid && board_table()[i].1 == pid),
        spec_board_name(vid, pid) is Some ==> spec_is_known_mcu(vid),
        forall|i: int| 0 <= i < board_table().len() && #[trigger] board_table()[i].0 == vid && board_table()[i].1 == pid
            ==> spec_board_name(vid, pid) == Some(board_table()[i].2@),
{
    lemma_first_board_row(board_table(), vid, pid);
    lemma_board_ids_unique();
    let b = board_table();
    let v = vendor_table();
    if spec_board_name(vid, pid) is Some {
        let i = choose|i: int| 0 <= i < b.len() && #[trigger] b[i] == (vid, pid, b[i].2)
            && b[i].2@ == spec_board_name(vid, pid).unwrap();
        assert(b[i].0 == vid && b[i].1 == pid);
        assert(vid == 0x2341u16 || vid == 0x1A86u16 || vid == 0x10C4u16 || vid == 0x0403u16
            || vid == 0x0483u16 || vid == 0x16C0u16 || vid == 0x239Au16 || vid == 0x2E8Au16
            || vid == 0x2886u16 || vid == 0x1B4Fu16 || vid == 0x0D28u16);
        if vid == 0x2341u16 { assert(v[0].0 == vid); }
        else if vid == 0x1A86u16 { assert(v[2].0 == vid); }
        else if vid == 0x10C4u16 { assert(v[3].0 == vid); }
        else if vid == 0x0403u16 { assert(v[4].0 == vid); }
        else if vid == 0x0483u16 { assert(v[5].0 == vid); }
        else if vid == 0x16C0u16 { assert(v[6].0 == vid); }
        else if vid == 0x239Au16 { assert(v[7].0 == vid); }
        else if vid == 0x2E8Au16 { assert(v[8].0 == vid); }
        else if vid == 0x2886u16 { assert(v[9].0 == vid); }
        else if vid == 0x1B4Fu16 { assert(v[10].0 == vid); }
        else { assert(v[14].0 == vid); }
    } else {
        if !(forall|i: int| 0 <= i < b.len() ==> !(#[trigger] b[i].0 == vid && b[i].1 == pid)) {
            let i = choose|i: int| 0 <= i < b.len() && (#[trigger] b[i].0 == vid && b[i].1 == pid);
        }
    }
}

proof fn lemma_first_vendor_row(table: Seq<(u16, &'static str)>, vid: u16)
    ensures
        first_vendor_name(table, vid) matches Some(n) ==> exists|i: int| 0 <= i < table.len()
            && #[trigger] table[i].0 == vid && table[i].1@ == n,
    decreases table.len(),
{
    if table.len() > 0 && table[0].0 != vid {
        let t = table.drop_first();
        lemma_first_vendor_row(t, vid);
        if first_vendor_name(table, vid) is Some {
            let j = choose|j: int| 0 <= j < t.len() && #[trigger] t[j].0 == vid
                && t[j].1@ == first_vendor_name(table, vid).unwrap();
            assert(table[j + 1] == t[j]);
        }
    }
}

/// The manufacturer's name reads `Unknown (…)` exactly when the vendor is not
/// a known microcontroller vendor, and then it is `Unknown (XXXX)` with the
/// ID in four upper-case hex digits; for a known vendor it is the name that
/// the vendor table gives the ID.
pub proof fn lemma_manufacturer_names(vid: u16)
    ensures
        spec_is_known_mcu(vid) <==> !"Unknown ("@.is_prefix_of(spec_manufacturer(vid)),
        !spec_is_known_mcu(vid) ==> spec_manufacturer(vid) == "Unknown ("@ + hex4(vid) + ")"@,
        spec_is_known_mcu(vid) ==> exists|i: int| 0 <= i < vendor_table().len()
            && #[trigger] vendor_table()[i].0 == vid && vendor_table()[i].1@ == spec_manufacturer(vid),
{
    lemma_first_vendor_some(vendor_table(), vid);
    lemma_first_vendor_row(vendor_table(), vid);
    reveal_strlit("Unknown (");
    let m = spec_manufacturer(vid);
    if spec_is_known_mcu(vid) {
        let v = vendor_table();
        let i = choose|i: int| 0 <= i < v.len() && #[trigger] v[i].0 == vid && v[i].1@ == m;
        reveal_strlit("Arduino LLC");
        reveal_strlit("Arduino (clone)");
        reveal_strlit("WCH (CH340/CH341)");
        reveal_strlit("Silicon Labs");
        reveal_strlit("FTDI");
        reveal_strlit("STMicroelectronics");
        reveal_strlit("PJRC (Teensy)");
        reveal_strlit("Adafruit");
        reveal_strlit("Raspberry Pi");
        reveal_strlit("Seeed Studio");
        reveal_strlit("SparkFun");
        reveal_strlit("Microchip Technology");
        reveal_strlit("Atmel");
        reveal_strlit("OpenMoko / Black Magic Probe");
        reveal_strlit("ARM mbed");
        reveal_strlit("Nordic Semiconductor");
        assert(m.len() > 0 && m[0] != 'U');
        assert(m.len() < 9 || m.subrange(0, 9)[0] != "Unknown ("@[0]);
    } else {
        let u = "Unknown ("@;
        assert(m.subrange(0, u.len() as int) =~= u);
    }
}

/// Whether the vendor ID belongs to a known microcontroller vendor.
pub fn is_known_mcu(vid: u16) -> (r: bool)
    ensures
        r == spec_is_known_mcu(vid),
{
    let table = vendor_entries();
    let mut i: usize = 0;
    while i < table.len()
        invariant
            table@ == vendor_table(),
            i <= table@.len(),
            forall|k: int| 0 <= k < i ==> table@[k].0 != vid,
        decreases table.len() - i,
    {
        if table[i].0 == vid {
            assert(vendor_table()[i as int].0 == vid);
            return true;
        }
        i = i + 1;
    }
    false
}


// ─── Device record ───────────────────────────────────────────────────────────

/// A serial port as it is listed: its identification and how it was found.
#[derive(Clone, Debug)]
pub struct DeviceInfo {
    pub port: String,
    pub board_name: String,
    pub manufacturer: String,
    pub vid: Option<u16>,
    pub pid: Option<u16>,
    pub serial_number: Option<String>,
    pub product: Option<String>,
    pub is_arduino: bool,
}

/// What a `DeviceInfo` holds, as plain values.
pub struct DeviceView {
    pub port: Seq<char>,
    pub board_name: Seq<char>,
    pub manufacturer: Seq<char>,
    pub vid: Option<u16>,
    pub pid: Option<u16>,
    pub serial_number: Option<Seq<char>>,
    pub product: Option<Seq<char>>,
    pub is_arduino: bool,
}

impl View for DeviceInfo {
    type V = DeviceView;

    open spec fn view(&self) -> DeviceView {
        DeviceView {
            port: self.port@,
            board_name: self.board_name@,
            manufacturer: self.manufacturer@,
            vid: self.vid,
            pid: self.pid,
            serial_number: opt_view(self.serial_number),
            product: opt_view(self.product),
            is_arduino: self.is_arduino,
        }
    }
}

/// `VVVV:PPPP` in upper-case hex when both IDs are known, else `N/A`.
pub open spec fn spec_vid_pid(vid: Option<u16>, pid: Option<u16>) -> Seq<char> {
    match (vid, pid) {
        (Some(v), Some(p)) => hex4(v) + ":"@ + hex4(p),
        _ => "N/A"@,
    }
}

impl DeviceInfo {
    /// The IDs as `VVVV:PPPP` in upper-case hex, or `N/A` when either is unknown.
    pub fn vid_pid_str(&self) -> (r: String)
        ensures
            r@ == spec_vid_pid(self.vid, self.pid),
    {
        match (self.vid, self.pid) {
            (Some(v), Some(p)) => {
                let mut s = String::new();
                push_hex4(&mut s, v);
                push_str(&mut s, ":");
                push_hex4(&mut s, p);
                assert(Seq::<char>::empty() + hex4(v) + ":"@ + hex4(p) == hex4(v) + ":"@ + hex4(p));
                s
            },
            _ => String::from_str("N/A"),
        }
    }
}

// ─── Ports as the system reports them ────────────────────────────────────────

/// What is known of a port that is connected over USB.
#[derive(Clone, Debug)]
pub struct UsbPortInfo {
    pub vid: u16,
    pub pid: u16,
    pub serial_number: Option<String>,
    pub manufacturer: Option<String>,
    pub product: Option<String>,
}

/// How a port is connected.
#[derive(Clone, Debug)]
pub enum SerialPortType {
    UsbPort(UsbPortInfo),
    PciPort,
    BluetoothPort,
    Unknown,
}

/// A serial port as the system reports it.
#[derive(Clone, Debug)]
pub struct SerialPortInfo {
    pub port_name: String,
    pub port_type: SerialPortType,
}

/// The board name of a USB device: the known board's name, else
/// `Microcontroller (VVVV:PPPP)` for a known vendor, else `USB Serial (VVVV:PPPP)`.
pub open spec fn spec_usb_board_name(vid: u16, pid: u16) -> Seq<char> {
    match spec_board_name(vid, pid) {
        Some(name) => name,
        None => if spec_is_known_mcu(vid) {
            "Microcontroller ("@ + spec_vid_pid(Some(vid), Some(pid)) + ")"@
        } else {
            "USB Serial ("@ + spec_vid_pid(Some(vid), Some(pid)) + ")"@
        },
    }
}

/// The manufacturer of a USB device: the reported one unless it is missing or
/// empty, else the one the vendor table gives.
pub open spec fn spec_usb_manufacturer(reported: Option<Seq<char>>, vid: u16) -> Seq<char> {
    match reported {
        Some(m) => if m.len() > 0 { m } else { spec_manufacturer(vid) },
        None => spec_manufacturer(vid),
    }
}

/// The device a reported port becomes under `filter`, or `None` where the
/// filter leaves it out: `"arduino"` keeps USB devices of known vendors,
/// `"generic"` USB devices of other vendors, `"all"` every port, and any other
/// filter every USB device.
pub open spec fn spec_device_of(p: SerialPortInfo, filter: Seq<char>) -> Option<DeviceView> {
    match p.port_type {
        SerialPortType::UsbPort(info) => {
            let known = spec_is_known_mcu(info.vid);
            let keep = if filter == "arduino"@ {
                known
            } else if filter == "generic"@ {
                !known
            } else {
                true
            };
            if keep {
                Some(DeviceView {
                    port: p.port_name@,
                    board_name: spec_usb_board_name(info.vid, info.pid),
                    manufacturer: spec_usb_manufacturer(opt_view(info.manufacturer), info.vid),
                    vid: Some(info.vid),
                    pid: Some(info.pid),
                    serial_number: opt_view(info.serial_number),
                    product: opt_view(info.product),
                    is_arduino: known,
                })
            } else {
                None
            }
        },
        other => {
            if filter == "all"@ {
                Some(DeviceView {
                    port: p.port_name@,
                    board_name: match other {
                        SerialPortType::PciPort => "PCI Serial Port"@,
                        SerialPortType::BluetoothPort => "Bluetooth Serial Port"@,
                        _ => "Unknown Port Type"@,
                    },
                    manufacturer: "Unknown"@,
                    vid: None,
                    pid: None,
                    serial_number: None,
                    product: None,
                    is_arduino: false,
                })
            } else {
                None
            }
        },
    }
}

/// A USB device is marked as a microcontroller exactly when its vendor ID is
/// in the vendor table, whatever its product ID: the `"arduino"` filter keeps
/// exactly those devices, `"generic"` exactly the others, and any other filter
/// keeps every USB device. The device keeps the port's name and IDs, and where
/// the board table does not name it, it reads `Microcontroller (VID:PID)` for
/// a known vendor and `USB Serial (VID:PID)` otherwise.
pub proof fn lemma_usb_marked_by_vendor(port_name: String, info: UsbPortInfo, filter: Seq<char>)
    ensures
        ({
            let p = SerialPortInfo { port_name, port_type: SerialPortType::UsbPort(info) };
            let known = exists|i: int| 0 <= i < vendor_table().len() && #[trigger] vendor_table()[i].0 == info.vid;
            &&& spec_device_of(p, filter) matches Some(d) ==> {
                &&& d.is_arduino == known
                &&& d.port == port_name@
                &&& d.vid == Some(info.vid) && d.pid == Some(info.pid)
                &&& d.serial_number == opt_view(info.serial_number) && d.product == opt_view(info.product)
                &&& (info.manufacturer matches Some(m) && m@.len() > 0) ==> d.manufacturer == info.manufacturer.unwrap()@
                &&& !(info.manufacturer matches Some(m) && m@.len() > 0) ==> d.manufacturer == spec_manufacturer(info.vid)
                &&& spec_board_name(info.vid, info.pid) matches Some(n) ==> d.board_name == n
                &&& spec_board_name(info.vid, info.pid) is None ==> d.board_name == (if known {
                    "Microcontroller ("@ + hex4(info.vid) + ":"@ + hex4(info.pid) + ")"@
                } else {
                    "USB Serial ("@ + hex4(info.vid) + ":"@ + hex4(info.pid) + ")"@
                })
            }
            &&& spec_device_of(p, "arduino"@) is Some <==> known
            &&& spec_device_of(p, "generic"@) is Some <==> !known
            &&& filter != "arduino"@ && filter != "generic"@ ==> spec_device_of(p, filter) is Some
        }),
{
    lemma_filter_names_differ();
}

/// A port that is not on USB is kept only by the `"all"` filter, as a device
/// of no known vendor, without IDs, serial number or product, made by
/// `Unknown`, and named by its kind of port.
pub proof fn lemma_other_ports_only_in_all(p: SerialPortInfo, filter: Seq<char>)
    requires
        !(p.port_type is UsbPort),
    ensures
        spec_device_of(p, filter) is Some <==> filter == "all"@,
        spec_device_of(p, filter) matches Some(d) ==> {
            &&& d.port == p.port_name@
            &&& !d.is_arduino
            &&& d.vid is None && d.pid is None && d.serial_number is None && d.product is None
            &&& d.manufacturer == "Unknown"@
            &&& d.board_name == match p.port_type {
                SerialPortType::PciPort => "PCI Serial Port"@,
                SerialPortType::BluetoothPort => "Bluetooth Serial Port"@,
                _ => "Unknown Port Type"@,
            }
        },
{
}

/// The devices that the ports become under `filter`, in the order of the ports.
pub open spec fn spec_selected(ports: Seq<SerialPortInfo>, filter: Seq<char>) -> Seq<DeviceView>
    decreases ports.len(),
{
    if ports.len() == 0 {
        Seq::empty()
    } else {
        let rest = spec_selected(ports.drop_last(), filter);
        match spec_device_of(ports.last(), filter) {
            Some(d) => rest.push(d),
            None => rest,
        }
    }
}

/// `x` placed into `s` after the last element that it is not listed before,
/// everything after that element keeping its place behind `x`.
pub open spec fn insert_by_port(s: Seq<DeviceView>, x: DeviceView) -> Seq<DeviceView>
    decreases s.len(),
{
    if s.len() == 0 {
        seq![x]
    } else if port_before(x.port, s.last().port) {
        insert_by_port(s.drop_last(), x).push(s.last())
    } else {
        s.push(x)
    }
}

/// The stable sort of `s` by port order (insertion of each element in turn).
pub open spec fn sort_by_port(s: Seq<DeviceView>) -> Seq<DeviceView>
    decreases s.len(),
{
    if s.len() == 0 {
        Seq::empty()
    } else {
        insert_by_port(sort_by_port(s.drop_last()), s.last())
    }
}

/// No element is listed before the one in front of it.
pub open spec fn sorted_by_port(s: Seq<DeviceView>) -> bool {
    forall|k: int| 0 <= k < s.len() - 1 ==> !port_before(#[trigger] s[k + 1].port, s[k].port)
}

fn device_from_usb(port: String, info: UsbPortInfo, filter: &str) -> (r: Option<DeviceInfo>)
    ensures
        ({
            let p = SerialPortInfo { port_name: port, port_type: SerialPortType::UsbPort(info) };
            match r {
                Some(d) => spec_device_of(p, filter@) == Some(d@),
                None => spec_device_of(p, filter@) is None,
            }
        }),
{
    let vid = info.vid;
    let pid = info.pid;
    let is_arduino = is_known_mcu(vid);
    let keep = if same_text(filter, "arduino") {
        is_arduino
    } else if same_text(filter, "generic") {
        !is_arduino
    } else {
        true
    };
    if !keep {
        return None;
    }
    let board_name = match lookup_board_name(vid, pid) {
        Some(name) => name,
        None => {
            let mut s = if is_arduino {
                String::from_str("Microcontroller (")
            } else {
                String::from_str("USB Serial (")
            };
            push_hex4(&mut s, vid);
            push_str(&mut s, ":");
            push_hex4(&mut s, pid);
            push_str(&mut s, ")");
            assert(s@ =~= spec_usb_board_name(vid, pid));
            s
        },
    };
    let manufacturer = match info.manufacturer {
        Some(m) => if m.unicode_len() > 0 { m } else { lookup_manufacturer(vid) },
        None => lookup_manufacturer(vid),
    };
    Some(DeviceInfo {
        port,
        board_name,
        manufacturer,
        vid: Some(vid),
        pid: Some(pid),
        serial_number: info.serial_number,
        product: info.product,
        is_arduino,
    })
}

/// The device a reported port becomes under `filter`, as `spec_device_of`
/// describes it.
pub fn device_from_port(p: SerialPortInfo, filter: &str) -> (r: Option<DeviceInfo>)
    ensures
        match r {
            Some(d) => spec_device_of(p, filter@) == Some(d@),
            None => spec_device_of(p, filter@) is None,
        },
{
    let SerialPortInfo { port_name, port_type } = p;
    match port_type {
        SerialPortType::UsbPort(info) => device_from_usb(port_name, info, filter),
        other => {
            if same_text(filter, "all") {
                let board_name = match other {
                    SerialPortType::PciPort => String::from_str("PCI Serial Port"),
                    SerialPortType::BluetoothPort => String::from_str("Bluetooth Serial Port"),
                    _ => String::from_str("Unknown Port Type"),
                };
                Some(DeviceInfo {
                    port: port_name,
                    board_name,
                    manufacturer: String::from_str("Unknown"),
                    vid: None,
                    pid: None,
                    serial_number: None,
                    product: None,
                    is_arduino: false,
                })
            } else {
                None
            }
        },
    }
}


proof fn lemma_insert_at(s: Seq<DeviceView>, x: DeviceView, k: int)
    requires
        0 <= k <= s.len(),
        forall|j: int| k <= j < s.len() ==> port_before(x.port, #[trigger] s[j].port),
        k == 0 || !port_before(x.port, s[k - 1].port),
    ensures
        insert_by_port(s, x) == s.insert(k, x),
    decreases s.len(),
{
    if s.len() == 0 {
        assert(seq![x] =~= s.insert(0, x));
    } else if k == s.len() {
        assert(s.push(x) =~= s.insert(k, x));
    } else {
        assert(port_before(x.port, s[s.len() - 1].port));
        lemma_insert_at(s.drop_last(), x, k);
        assert(s.drop_last().insert(k, x).push(s.last()) =~= s.insert(k, x));
    }
}

proof fn lemma_insert_shape(s: Seq<DeviceView>, x: DeviceView)
    ensures
        insert_by_port(s, x).len() == s.len() + 1,
        insert_by_port(s, x).last() == x || (s.len() > 0 && insert_by_port(s, x).last() == s.last()),
        insert_by_port(s, x).to_multiset() == s.to_multiset().insert(x),
    decreases s.len(),
{
    broadcast use vstd::seq_lib::group_to_multiset_ensures;
    if s.len() > 0 {
        lemma_insert_shape(s.drop_last(), x);
        if port_before(x.port, s.last().port) {
            assert(s.drop_last().push(s.last()) =~= s);
        }
    }
}

/// Inserting into a list sorted by port order keeps it sorted.
pub proof fn lemma_insert_keeps_sorted(s: Seq<DeviceView>, x: DeviceView)
    requires
        sorted_by_port(s),
    ensures
        sorted_by_port(insert_by_port(s, x)),
    decreases s.len(),
{
    if s.len() > 0 {
        let last = s.last();
        if port_before(x.port, last.port) {
            let t = s.drop_last();
            assert(sorted_by_port(t)) by {
                assert forall|k: int| 0 <= k < t.len() - 1 implies !port_before(#[trigger] t[k + 1].port, t[k].port) by {
                    assert(t[k + 1] == s[k + 1]);
                    assert(t[k] == s[k]);
                }
            }
            lemma_insert_keeps_sorted(t, x);
            lemma_insert_shape(t, x);
            let u = insert_by_port(t, x);
            lemma_port_before_asymmetric(x.port, last.port);
            if t.len() > 0 && u.last() == t.last() {
                assert(s[s.len() - 2] == t.last());
            }
            let r = u.push(last);
            assert forall|k: int| 0 <= k < r.len() - 1 implies !port_before(#[trigger] r[k + 1].port, r[k].port) by {
                if k < u.len() - 1 {
                    assert(r[k + 1] == u[k + 1]);
                    assert(r[k] == u[k]);
                } else {
                    assert(r[k + 1] == last);
                    assert(r[k] == u.last());
                    if u.last() != x {
                        let j = s.len() - 2;
                        assert(!port_before(s[j + 1].port, s[j].port));
                    }
                }
            }
        } else {
            let r = s.push(x);
            assert forall|k: int| 0 <= k < r.len() - 1 implies !port_before(#[trigger] r[k + 1].port, r[k].port) by {
                if k < s.len() - 1 {
                    assert(r[k + 1] == s[k + 1]);
                    assert(r[k] == s[k]);
                }
            }
        }
    }
}

/// The device list is sorted: no port is listed before the port in front of it.
pub proof fn lemma_sort_by_port_sorted(s: Seq<DeviceView>)
    ensures
        sorted_by_port(sort_by_port(s)),
    decreases s.len(),
{
    if s.len() > 0 {
        lemma_sort_by_port_sorted(s.drop_last());
        lemma_insert_keeps_sorted(sort_by_port(s.drop_last()), s.last());
    }
}

/// A list already in port order is left as it is.
pub proof fn lemma_sort_by_port_keeps_sorted(s: Seq<DeviceView>)
    requires
        sorted_by_port(s),
    ensures
        sort_by_port(s) == s,
    decreases s.len(),
{
    if s.len() > 0 {
        let t = s.drop_last();
        assert(sorted_by_port(t)) by {
            assert forall|k: int| 0 <= k < t.len() - 1 implies !port_before(#[trigger] t[k + 1].port, t[k].port) by {
                assert(t[k + 1] == s[k + 1]);
                assert(t[k] == s[k]);
            }
        }
        lemma_sort_by_port_keeps_sorted(t);
        if t.len() > 0 {
            let j = s.len() - 2;
            assert(!port_before(s[j + 1].port, s[j].port));
        }
        assert(t.push(s.last()) =~= s);
    }
}

/// Sorting the device list neither drops nor adds nor repeats a device.
pub proof fn lemma_sort_by_port_permutation(s: Seq<DeviceView>)
    ensures
        sort_by_port(s).to_multiset() == s.to_multiset(),
    decreases s.len(),
{
    broadcast use vstd::seq_lib::group_to_multiset_ensures;
    if s.len() > 0 {
        lemma_sort_by_port_permutation(s.drop_last());
        lemma_insert_shape(sort_by_port(s.drop_last()), s.last());
        assert(s.drop_last().push(s.last()) =~= s);
    }
}

/// What every device that a filter keeps has: under `"arduino"` a known
/// vendor; under `"generic"` USB IDs of an unknown vendor; under any filter
/// but `"all"` USB IDs; and a device marked as a microcontroller has the
/// IDs of a known vendor.
pub open spec fn kept_by_filter(d: DeviceView, filter: Seq<char>) -> bool {
    &&& filter == "arduino"@ ==> d.is_arduino
    &&& filter == "generic"@ ==> !d.is_arduino && d.vid is Some
    &&& filter != "all"@ ==> d.vid is Some && d.pid is Some
    &&& d.is_arduino ==> d.vid is Some && spec_is_known_mcu(d.vid.unwrap())
}

proof fn lemma_device_of_kept(p: SerialPortInfo, filter: Seq<char>)
    ensures
        spec_device_of(p, filter) matches Some(d) ==> kept_by_filter(d, filter),
{
    reveal_strlit("arduino");
    reveal_strlit("generic");
    reveal_strlit("all");
    assert("arduino"@ != "generic"@) by {
        assert("arduino"@[0] != "generic"@[0]);
    }
    assert("arduino"@ != "all"@) by {
        assert("arduino"@.len() != "all"@.len());
    }
    assert("generic"@ != "all"@) by {
        assert("generic"@.len() != "all"@.len());
    }
}

proof fn lemma_selected_kept(ports: Seq<SerialPortInfo>, filter: Seq<char>)
    ensures
        forall|i: int| 0 <= i < spec_selected(ports, filter).len() ==>
            kept_by_filter(#[trigger] spec_selected(ports, filter)[i], filter),
    decreases ports.len(),
{
    reveal_strlit("arduino");
    reveal_strlit("generic");
    reveal_strlit("all");
    if ports.len() > 0 {
        lemma_selected_kept(ports.drop_last(), filter);
        let rest = spec_selected(ports.drop_last(), filter);
        let s = spec_selected(ports, filter);
        lemma_device_of_kept(ports.last(), filter);
        assert forall|i: int| 0 <= i < s.len() implies kept_by_filter(#[trigger] s[i], filter) by {
            if i < rest.len() {
                assert(s[i] == rest[i]);
            }
        }
    }
}

/// The device list honours the filter: every device in it is one that the
/// filter keeps (see `kept_by_filter`).
pub proof fn lemma_device_list_honours_filter(ports: Seq<SerialPortInfo>, filter: Seq<char>, d: DeviceView)
    requires
        sort_by_port(spec_selected(ports, filter)).contains(d),
    ensures
        kept_by_filter(d, filter),
{
    broadcast use vstd::seq_lib::group_to_multiset_ensures;
    let s = spec_selected(ports, filter);
    lemma_sort_by_port_permutation(s);
    lemma_selected_kept(ports, filter);
    assert(sort_by_port(s).to_multiset().count(d) > 0);
    assert(s.to_multiset().count(d) > 0);
    assert(s.contains(d));
}

/// The device list is sorted by port order and holds each selected device
/// as often as the ports give it.
pub proof fn lemma_device_list_sorted(ports: Seq<SerialPortInfo>, filter: Seq<char>)
    ensures
        sorted_by_port(sort_by_port(spec_selected(ports, filter))),
        sort_by_port(spec_selected(ports, filter)).to_multiset() == spec_selected(ports, filter).to_multiset(),
{
    lemma_sort_by_port_sorted(spec_selected(ports, filter));
    lemma_sort_by_port_permutation(spec_selected(ports, filter));
}

proof fn lemma_filter_names_differ()
    ensures
        "arduino"@ != "generic"@,
        "arduino"@ != "all"@,
        "generic"@ != "all"@,
{
    reveal_strlit("arduino");
    reveal_strlit("generic");
    reveal_strlit("all");
    assert("arduino"@[0] != "generic"@[0]);
    assert("arduino"@.len() != "all"@.len());
    assert("generic"@.len() != "all"@.len());
}

proof fn lemma_filters_one_port(p: SerialPortInfo, filter: Seq<char>)
    requires
        filter != "arduino"@,
        filter != "generic"@,
        filter != "all"@,
    ensures
        spec_device_of(p, filter) is Some <==> p.port_type is UsbPort,
        spec_device_of(p, filter) is Some ==> (spec_device_of(p, "arduino"@) is Some) != (spec_device_of(p, "generic"@) is Some),
        spec_device_of(p, filter) is None ==> spec_device_of(p, "arduino"@) is None && spec_device_of(p, "generic"@) is None,
        spec_device_of(p, "arduino"@) matches Some(d) ==> spec_device_of(p, filter) == Some(d) && spec_device_of(p, "all"@) == Some(d),
        spec_device_of(p, "generic"@) matches Some(d) ==> spec_device_of(p, filter) == Some(d) && spec_device_of(p, "all"@) == Some(d),
        spec_device_of(p, filter) matches Some(d) ==> spec_device_of(p, "all"@) == Some(d),
{
    lemma_filter_names_differ();
}

/// Any filter other than `"arduino"`, `"generic"` and `"all"` selects the
/// devices on USB ports, which `"arduino"` and `"generic"` split between them
/// (known microcontroller vendors and the others); what any filter selects,
/// `"all"` selects too.
pub proof fn lemma_filters_relate(ports: Seq<SerialPortInfo>, filter: Seq<char>)
    requires
        filter != "arduino"@,
        filter != "generic"@,
        filter != "all"@,
    ensures
        forall|i: int| 0 <= i < spec_selected(ports, filter).len() ==> (#[trigger] spec_selected(ports, filter)[i]).vid is Some,
        spec_selected(ports, filter).to_multiset()
            == spec_selected(ports, "arduino"@).to_multiset().add(spec_selected(ports, "generic"@).to_multiset()),
        spec_selected(ports, "arduino"@).to_multiset().subset_of(spec_selected(ports, "all"@).to_multiset()),
        spec_selected(ports, "generic"@).to_multiset().subset_of(spec_selected(ports, "all"@).to_multiset()),
        spec_selected(ports, filter).to_multiset().subset_of(spec_selected(ports, "all"@).to_multiset()),
    decreases ports.len(),
{
    broadcast use vstd::seq_lib::group_to_multiset_ensures;
    if ports.len() == 0 {
        assert(spec_selected(ports, filter) =~= Seq::<DeviceView>::empty());
        assert(spec_selected(ports, "arduino"@) =~= Seq::<DeviceView>::empty());
        assert(spec_selected(ports, "generic"@) =~= Seq::<DeviceView>::empty());
        assert(Multiset::<DeviceView>::empty().add(Multiset::empty()) =~= Multiset::empty());
    } else {
        let t = ports.drop_last();
        let p = ports.last();
        lemma_filters_relate(t, filter);
        lemma_filters_one_port(p, filter);
        lemma_device_of_kept(p, filter);
        let f0 = spec_selected(t, filter);
        let f1 = spec_selected(ports, filter);
        assert forall|i: int| 0 <= i < f1.len() implies (#[trigger] f1[i]).vid is Some by {
            if i < f0.len() {
                assert(f1[i] == f0[i]);
            }
        }
        let a0 = spec_selected(t, "arduino"@).to_multiset();
        let g0 = spec_selected(t, "generic"@).to_multiset();
        let l0 = spec_selected(t, "all"@).to_multiset();
        let a1 = spec_selected(ports, "arduino"@).to_multiset();
        let g1 = spec_selected(ports, "generic"@).to_multiset();
        let l1 = spec_selected(ports, "all"@).to_multiset();
        let m1 = f1.to_multiset();
        match spec_device_of(p, filter) {
            Some(d) => {
                if spec_device_of(p, "arduino"@) is Some {
                    assert(m1 =~= a1.add(g1));
                } else {
                    assert(m1 =~= a1.add(g1));
                }
            },
            None => {
                assert(m1 =~= a1.add(g1));
            },
        }
    }
}

/// The device lists (sorted by port order) relate as the selections do (see
/// `lemma_filters_relate`): under a filter other than `"arduino"`,
/// `"generic"` and `"all"`, the list holds the devices of the `"arduino"`
/// list and of the `"generic"` list together, and the `"all"` list holds
/// every device of each of them.
pub proof fn lemma_device_lists_relate(ports: Seq<SerialPortInfo>, filter: Seq<char>)
    requires
        filter != "arduino"@,
        filter != "generic"@,
        filter != "all"@,
    ensures
        sort_by_port(spec_selected(ports, filter)).to_multiset()
            == sort_by_port(spec_selected(ports, "arduino"@)).to_multiset().add(
                sort_by_port(spec_selected(ports, "generic"@)).to_multiset()),
        sort_by_port(spec_selected(ports, "arduino"@)).to_multiset().subset_of(
            sort_by_port(spec_selected(ports, "all"@)).to_multiset()),
        sort_by_port(spec_selected(ports, "generic"@)).to_multiset().subset_of(
            sort_by_port(spec_selected(ports, "all"@)).to_multiset()),
        sort_by_port(spec_selected(ports, filter)).to_multiset().subset_of(
            sort_by_port(spec_selected(ports, "all"@)).to_multiset()),
{
    lemma_filters_relate(ports, filter);
    lemma_sort_by_port_permutation(spec_selected(ports, filter));
    lemma_sort_by_port_permutation(spec_selected(ports, "arduino"@));
    lemma_sort_by_port_permutation(spec_selected(ports, "generic"@));
    lemma_sort_by_port_permutation(spec_selected(ports, "all"@));
}

/// The views of a list of devices.
pub open spec fn device_views(v: Seq<DeviceInfo>) -> Seq<DeviceView> {
    v.map_values(|d: DeviceInfo| d@)
}

/// Inserts `x` after the last device that it is not listed before.
fn insert_device(out: &mut Vec<DeviceInfo>, x: DeviceInfo)
    ensures
        device_views(final(out)@) == insert_by_port(device_views(old(out)@), x@),
{
    let ghost s = device_views(out@);
    let mut k = out.len();
    while k > 0 && port_before_exec(x.port.as_str(), out[k - 1].port.as_str())
        invariant
            k <= out.len(),
            s == device_views(out@),
            forall|j: int| k <= j < s.len() ==> port_before(x@.port, #[trigger] s[j].port),
        decreases k,
    {
        k = k - 1;
    }
    proof {
        lemma_insert_at(s, x@, k as int);
    }
    out.insert(k, x);
    assert(device_views(out@) =~= s.insert(k as int, x@));
}

/// The devices that the reported ports become under `filter` (see
/// `spec_device_of`), sorted by port order, stable: ports with the same number
/// keep the order in which the system reported them.
pub fn select_devices(ports: Vec<SerialPortInfo>, filter: &str) -> (r: Vec<DeviceInfo>)
    ensures
        device_views(r@) == sort_by_port(spec_selected(ports@, filter@)),
{
    let ghost all = ports@;
    let mut rest = ports;
    let mut out: Vec<DeviceInfo> = Vec::new();
    let mut i: usize = 0;
    let n = rest.len();
    assert(all.take(0) =~= Seq::<SerialPortInfo>::empty());
    while i < n
        invariant
            n == all.len(),
            i <= n,
            rest@ == all.skip(i as int),
            device_views(out@) == sort_by_port(spec_selected(all.take(i as int), filter@)),
        decreases n - i,
    {
        let p = rest.remove(0);
        assert(p == all[i as int]);
        assert(all.take(i + 1).drop_last() =~= all.take(i as int));
        assert(all.take(i + 1).last() == p);
        assert(rest@ =~= all.skip(i + 1));
        let ghost before = spec_selected(all.take(i as int), filter@);
        match device_from_port(p, filter) {
            Some(d) => {
                assert(before.push(d@).drop_last() =~= before);
                insert_device(&mut out, d);
            },
            None => {},
        }
        i = i + 1;
    }
    assert(all.take(n as int) =~= all);
    out
}

} // verus!
