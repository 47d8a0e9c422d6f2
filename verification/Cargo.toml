[package]
name = "vbus_log_sync"
version = "0.1.0"
edition = "2021"
publish = false

[dependencies]
async-h1 = "2"
async-std = { version = "1", features = ["attributes"] }
chrono = "0.4"
chrono-tz = "*"
color-eyre = "*"
http-types = "2"
resol-vbus = "*"
tracing = "0.1"
tracing-subscriber = { version = "0.3", features = ["env-filter"] }
