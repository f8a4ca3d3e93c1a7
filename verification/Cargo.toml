[package]
name = "mcping-api"
version = "0.1.0"
edition = "2021"
publish = false

[dependencies]
ar-reshaper = "*"
axum = "0.8"
base64 = "0.22"
image = { version = "0.25", default-features = false, features = ["png", "jpeg"] }
serde = { version = "1", features = ["derive"] }
serde_json = "1"
tokio = { version = "1", features = ["full"] }
tracing = "0.1"
tracing-subscriber = { version = "0.3", features = ["env-filter"] }
unicode-bidi = "0.3"
