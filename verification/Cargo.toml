[package]
name = "apeiron_cipher"
version = "0.1.0"
edition = "2021"
publish = false

[dependencies]
toml = "*"
crc32fast = "*"
serde = { version = "1", features = ["derive"] }
serde_json = "1"
bincode = { version = "2", features = ["serde"] }
crossbeam-channel = "0.5"
petgraph = { version = "*", features = ["serde-1"] }
tokio = { version = "1", features = ["rt-multi-thread", "time", "sync", "macros"] }
tokio-tungstenite = "*"
futures-util = { version = "0.3", features = ["sink"] }
