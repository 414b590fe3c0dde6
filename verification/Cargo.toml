[package]
name = "dnp3"
version = "0.1.0"
edition = "2021"
publish = false

[dependencies]
async-trait = "0.1"
serialport = { version = "4", default-features = false }
thiserror = "1"
tokio = { version = "1", features = ["net", "time", "io-util", "sync", "rt", "macros"] }
