[package]
name = "raft"
version = "0.1.0"
edition = "2021"
publish = false

[dependencies]
clap = { version = "4", features = ["derive"] }
serde = { version = "1", features = ["derive"] }
serde_json = "1"
tarpc = { version = "*", features = ["serde1", "tokio1", "serde-transport", "serde-transport-json", "tcp"] }
tokio = { version = "1", features = ["rt-multi-thread", "macros", "net", "time", "sync"] }
tokio-serde = { version = "*", features = ["json"] }
