[package]
name = "buoy"
version = "0.1.0"
edition = "2021"
publish = false

[dependencies]
anyhow = "1"
axum = "0.8"
candle-core = "*"
candle-nn = "*"
candle-transformers = "*"
clap = { version = "4", features = ["derive"] }
rusqlite = { version = "*", features = ["bundled"] }
serde = { version = "1", features = ["derive"] }
serde_json = "1"
thiserror = "2"
tokenizers = { version = "*", default-features = false, features = ["fancy-regex"] }
tokio = { version = "1", features = ["full"] }
toml = "*"
tower-http = { version = "0.6", features = ["fs"] }
tracing = "0.1"
tracing-subscriber = { version = "0.3", features = ["env-filter"] }
uniffi = "*"
uuid = { version = "1", features = ["v4"] }
