[package]
name = "vital_tracker"
version = "0.1.0"
edition = "2021"
publish = false

[dependencies]
image = "*"
serde = { version = "*", features = ["derive"] }
serde_json = "*"
tokio = { version = "*", features = ["full"] }
axum = { version = "*", features = ["multipart"] }
reqwest = { version = "*", default-features = false }
chrono = "*"
anyhow = "*"
dotenvy = "*"
tower-http = { version = "*", features = ["fs"] }
