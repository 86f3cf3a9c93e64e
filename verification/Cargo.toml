[package]
name = "storage_hal"
version = "0.1.0"
edition = "2021"
publish = false

[dependencies]
sled = "0.34"
moka = { version = "0.12", features = ["sync"] }
serde = "1"
bincode = "1"
