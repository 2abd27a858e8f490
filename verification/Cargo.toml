[package]
name = "graphforge_storage"
version = "0.1.0"
edition = "2021"
publish = false

[dependencies]
arrow = { version = "58", default-features = false }
parquet = { version = "58", default-features = false, features = ["arrow"] }
serde = { version = "1", features = ["derive"] }
serde_json = "1"
sha2 = "0.10"
tempfile = "3"
uuid = "1"
