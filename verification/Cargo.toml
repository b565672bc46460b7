[package]
name = "server"
version = "0.1.0"
edition = "2021"
publish = false

[dependencies]
anyhow = "1"
axum = "*"
moka = { version = "*", features = ["future"] }
rand = "*"
serde = { version = "1", features = ["derive"] }
smallvec = "1"
sqids = "*"
sqlx = { version = "*", features = ["sqlite", "runtime-tokio"] }
tokio = { version = "1", features = ["full"] }
tracing-subscriber = "*"
yaml_serde = "*"
