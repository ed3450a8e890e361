[package]
name = "rbmem"
version = "1.4.2"
edition = "2021"
publish = false

[dependencies]
chrono = "0.4"
ring = "0.17"
base64 = "0.22"
serde = { version = "1", features = ["derive"] }
serde_json = "1"
serde_yaml = "0.9"
clap = { version = "4", features = ["derive"] }
md5 = "0.7"
notify = "6"
tokio = { version = "1", features = ["full"] }
axum = "0.7"
petgraph = "0.6"
thiserror = "1"
tracing = "0.1"
tracing-subscriber = { version = "0.3", features = ["env-filter", "json"] }
