[package]
name = "lob_engine"
version = "0.1.0"
edition = "2021"
publish = false

[dependencies]
smallvec = "1"
serde = { version = "1", features = ["derive"] }
arc-swap = "1"
parking_lot = "0.12"

[dev-dependencies]
serde_json = "1"
