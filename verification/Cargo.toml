[package]
name = "trondb"
version = "0.1.0"
edition = "2021"
publish = false

[dependencies]
anndists = "0.1"
bincode = "1"
comfy-table = "7"
dashmap = "6"
fjall = "2"
hnsw_rs = "0.3"
rmp-serde = "1"
rustyline = "14"
serde = { version = "1", features = ["derive"] }
serde_json = "1"
sha2 = "0.10"
thiserror = "2"
tokio = { version = "1", features = ["full"] }

[dev-dependencies]
tempfile = "3"
