[package]
name = "neurolithe"
version = "0.1.0"
edition = "2021"
publish = false

[dependencies]
anyhow = "1"
async-trait = "0.1"
config = "0.15"
dotenvy = "0.15"
gcp_auth = "0.12"
rdkafka = "0.37"
reqwest = { version = "0.12", features = ["json"] }
rusqlite = { version = "*", features = ["bundled"] }
serde = { version = "1", features = ["derive"] }
serde_json = "1"
sqlite-vec = "0.1"
tokio = { version = "1", features = ["full"] }
