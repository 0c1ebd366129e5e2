[package]
name = "rust_db"
version = "0.1.0"
edition = "2021"
publish = false

[dependencies]
axum = "=0.8.9"
logfire = "=0.13.1"
opentelemetry = "=0.32.0"
opentelemetry_sdk = "=0.32.1"
serde = { version = "=1.0.229", features = ["derive"] }
serde_json = "=1.0.154"
sqlx = { version = "=0.8.6", default-features = false, features = ["postgres", "runtime-tokio", "uuid"] }
sqlx-tracing = { version = "=0.2.1", features = ["postgres"] }
thiserror = "=2.0.21"
tokio = { version = "=1.54.1", features = ["full"] }
uuid = { version = "=1.29.0", features = ["serde"] }
