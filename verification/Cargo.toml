[package]
name = "firecracker_sdk"
version = "0.1.0"
edition = "2021"
publish = false

[dependencies]
anyhow = "*"
regex = "*"
reqwest = { version = "*", default-features = false }
serde = { version = "*", features = ["derive"] }
serde_json = "*"
tempfile = "*"
tokio = { version = "*", features = ["process", "net", "fs", "time", "io-util", "rt-multi-thread", "macros"] }
