[package]
name = "feather_index"
version = "0.1.0"
edition = "2021"
publish = false

[dependencies]
sled = "*"
subxt = "*"
tokio = { version = "*", features = ["full"] }
futures = "*"
serde = { version = "*", features = ["derive"] }
serde_json = "*"
tracing-log = "*"
thiserror = "*"
hex = "*"
