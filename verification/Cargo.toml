[package]
name = "bklog"
version = "0.1.0"
edition = "2021"
publish = false

[dependencies]
crc = "3"
bincode = "1.3"
serde = "1"
thiserror = "1"

[dev-dependencies]
tempfile = "3"
