[package]
name = "minisql"
version = "0.1.0"
edition = "2021"
publish = false

[dependencies]
tokio = { version = "*", features = ["rt-multi-thread", "net", "macros", "sync", "io-util"] }
serde = { version = "*", features = ["derive"] }
serde_json = "*"
ron = "*"
anyhow = "*"
dotenv = "*"
cap = "*"
atomic-counter = "*"
lazy_static = "*"
