[package]
name = "zi"
version = "0.3.2"
edition = "2021"
publish = false

[dependencies]
smallvec = "1"
unicode-segmentation = "1"
unicode-width = "0.1"
log = "0.4"
thiserror = "1"
futures = "0.3"
tokio = { version = "1", features = ["rt", "time", "sync", "macros"] }
crossterm = { version = "0.20", features = ["event-stream"] }
