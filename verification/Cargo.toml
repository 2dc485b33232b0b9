[package]
name = "mgdl"
version = "0.1.0"
edition = "2021"
publish = false

[dependencies]
chrono = "*"
clap = { version = "*", features = ["derive"] }
csv = "*"
directories = "*"
dirs = "*"
indicatif = "*"
reqwest = { version = "*", default-features = false }
rusqlite = { version = "*", features = ["bundled"] }
serde = { version = "*", features = ["derive"] }
serde_json = "*"
tokio = { version = "*", features = ["rt-multi-thread", "macros", "time", "sync", "fs", "io-util"] }
toml = "*"
uuid = { version = "*", features = ["v4"] }
