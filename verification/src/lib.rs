//! Identification and bookkeeping of serial ports that belong to Arduino
//! boards and other microcontrollers: the board tables, the device list, the
//! connection history, nicknames, the session record, export records and the
//! decisions of watch mode.

pub mod text;
pub mod timestamp;
pub mod detection;
pub mod port_order;
pub mod history;
pub mod port_map;
pub mod config;
pub mod watch;
pub mod export;
pub mod display;
pub mod cli;
