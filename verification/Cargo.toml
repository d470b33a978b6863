[package]
name = "yuanjing_core"
version = "0.1.0"
edition = "2021"
publish = false

[dependencies]
anyhow = "1"
axum = "0.8"
blake3 = "1"
chrono = "0.4"
ckb-merkle-mountain-range = "*"
ed25519-dalek = { version = "2", features = ["rand_core"] }
hex = "0.4"
img_hash = "3"
rand = "0.8"
serde = { version = "1", features = ["derive"] }
serde_json = "1"
sha2 = "0.10"
tokio = { version = "1", features = ["full"] }
tower-http = { version = "0.6", features = ["cors"] }
