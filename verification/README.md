# com-com

A tool for identifying, monitoring and managing the serial ports of Arduino
boards and other microcontrollers: it names boards by their USB vendor and
product IDs, keeps a connection history and a session record, saves port
nicknames, exports the device list as JSON or CSV, and watches ports connect
and disconnect.

## Layout

- `src/` — the library, verified with Verus:
  - `detection.rs`: the board and vendor tables, device records, the filter
    and the natural order of ports;
  - `port_order.rs`: the order of port names (`COM3` before `COM10`);
  - `port_map.rs`: maps keyed by port name (nicknames, sessions);
  - `timestamp.rs`: instants and the seconds between them;
  - `history.rs`: connection history, its queries and limits, uptime,
    relative-time and wall-clock text;
  - `config.rs`: settings, the session record and its reconciliation;
  - `watch.rs`: the decisions of watch mode;
  - `export.rs`: export records, their CSV form and how it reads back;
  - `display.rs`: table rows and line parts;
  - `cli.rs`: command selection, export formats, the copy menu;
  - `text.rs`: decimal and hexadecimal text.
- `app/` — the program: argument parsing, files, serial-port enumeration,
  printing, the clipboard and the watch loop.
- `tests/` — tests of the library.
