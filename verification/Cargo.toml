[package]
name = "kad_dht"
version = "0.1.0"
edition = "2021"
publish = false

[dependencies]
blake3 = { version = "1", default-features = false, features = ["pure"] }
sha3 = "0.8"
serde = { version = "1", features = ["derive"] }
serde_json = "1"
actix-web = "4"
