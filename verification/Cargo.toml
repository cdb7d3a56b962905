[package]
name = "pdf_merge"
version = "0.1.0"
edition = "2021"
publish = false

[dependencies]
lopdf = { version = "=0.45.0", default-features = false, features = ["chrono-clock"] }
anyhow = "=1.0.104"
axum = "=0.8.9"
axum_typed_multipart = "=0.16.7"
chromiumoxide = "=0.9.1"
futures = "=0.3.34"
serde = { version = "=1.0.229", features = ["derive"] }
serde_json = "=1.0.151"
tempfile = "=3.27.0"
tokio = { version = "=1.53.2", features = ["full"] }
tower-http = { version = "=0.6.11", features = ["trace"] }
tracing = "=0.1.44"
tracing-subscriber = "=0.3.23"
validator = { version = "=0.21.0", features = ["derive"] }
