[package]
name = "blockyard"
version = "0.1.0"
edition = "2021"
publish = false

[dependencies]
blake3 = { version = "1", default-features = false, features = ["std", "pure"] }
openraft = { version = "0.9", features = ["serde", "storage-v2"] }
parking_lot = "0.12"
redb = "2"
reed-solomon-erasure = "6"
serde = { version = "1", features = ["derive"] }
serde_json = "1"
tokio = { version = "1", features = ["full"] }
tonic = { version = "0.12", default-features = false }
tracing = "0.1"
uuid = { version = "1", features = ["v4"] }
