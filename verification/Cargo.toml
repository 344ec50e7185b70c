[package]
name = "rs_guard"
version = "0.1.0"
edition = "2021"
publish = false

[dependencies]
anyhow = "1"
axum = "0.8"
notify = "8"
reed-solomon-erasure = "6"
serde = { version = "1", features = ["derive"] }
sled = "0.34"
tokio = { version = "1", features = ["rt-multi-thread", "macros", "time", "sync", "net"] }
toml = "0.8"
