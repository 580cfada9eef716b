[package]
name = "qrt"
version = "0.1.0"
edition = "2021"
publish = false

[dependencies]
ahash = "0.8"
bytes = "1"
parking_lot = "0.12"
tokio = { version = "1", features = ["macros", "rt", "sync", "time"] }
