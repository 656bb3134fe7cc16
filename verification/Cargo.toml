[package]
name = "game_gateway"
version = "0.1.0"
edition = "2021"
publish = false

[dependencies]
anyhow = "1"
axum = { version = "0.8", features = ["ws"] }
chrono = "0.4"
dashmap = "6"
dotenvy = "0.15"
futures-util = "0.3"
redis = { version = "0.27", features = ["tokio-comp"] }
rmpv = "1"
serde = { version = "1", features = ["derive"] }
serde_json = "1"
tokio = { version = "1", features = ["full"] }
tracing = "0.1"
tracing-subscriber = { version = "0.3", features = ["env-filter"] }
