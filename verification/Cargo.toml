[package]
name = "batchmon"
version = "0.1.0"
edition = "2021"
publish = false

[dependencies]
chrono = "0.4"
tokio = { version = "1", features = ["rt-multi-thread", "macros", "time", "sync", "process", "io-util"] }
openssh = "*"
rusqlite = { version = "*", features = ["bundled"] }
backoff = { version = "0.4", features = ["tokio"] }
