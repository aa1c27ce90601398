[package]
name = "com-com"
version = "0.1.0"
edition = "2021"
publish = false

[dependencies]
anyhow = "1"
arboard = "3"
chrono = { version = "0.4", features = ["serde"] }
clap = { version = "4", features = ["derive"] }
colored = "2"
csv = "1"
dirs = "5"
serde = { version = "1", features = ["derive"] }
serde_json = "1"
serialport = { version = "4", default-features = false }
tabled = "0.15"
tokio = { version = "1", features = ["rt-multi-thread", "macros", "time", "signal"] }
uuid = { version = "1", features = ["v4"] }
