[package]
name = "kvnode"
version = "0.1.0"
edition = "2021"
publish = false

[dependencies]
crc32fast = "1"
anyhow = "1"
thiserror = "2"
tokio = { version = "1", features = ["full"] }
axum = "0.8"
tower-http = { version = "0.6", features = ["trace"] }
tracing = "0.1"
tracing-subscriber = "0.3"
clap = { version = "4", features = ["derive"] }
reqwest = { version = "0.12", default-features = false, features = ["json"] }
serde = { version = "1", features = ["derive"] }
rkyv = "0.8"
sha256 = "1"
