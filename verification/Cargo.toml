[package]
name = "avxs"
version = "0.1.0"
edition = "2021"
publish = false

[dependencies]
anyhow = "1"
av-scenechange = { version = "*", default-features = false }
serde = { version = "1", features = ["derive"] }
serde_json = "1"
tokio = { version = "1", features = ["full"] }
toml = "*"
tracing = "0.1"
tracing-subscriber = { version = "0.3", features = ["env-filter"] }
y4m = "*"
