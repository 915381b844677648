[package]
name = "portal"
version = "0.1.0"
edition = "2021"
publish = false

[dependencies]
chrono = "0.4"
clap = { version = "3", features = ["derive"] }
log = { version = "0.4", features = ["serde"] }
parking_lot = "0.12"
prost = "0.11"
serde = { version = "1", features = ["derive"] }
serde_yaml = "0.8"
tokio = { version = "1", features = ["full"] }
