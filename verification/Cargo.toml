[package]
name = "audimon"
version = "0.1.0"
edition = "2021"
publish = false

[dependencies]
rand = "0.8"
sysinfo = "0.23"
tokio = { version = "1", features = ["rt-multi-thread", "time", "sync", "macros", "signal"] }
anyhow = "1"
dasp = "0.11"
