[package]
name = "mc_translator"
version = "0.1.0"
edition = "2021"
publish = false

[dependencies]
serde_json = "*"
chrono = "*"
serde = { version = "*", features = ["derive"] }
tokio = { version = "*", features = ["rt", "rt-multi-thread", "sync", "time", "macros"] }
tokio-util = "*"
reqwest = { version = "*", default-features = false }
walkdir = "*"
zip = { version = "*", default-features = false, features = ["deflate"] }
