[package]
name = "qr_transfer"
version = "0.1.0"
edition = "2021"
publish = false

[dependencies]
anyhow = "*"
axum = "*"
base64 = "=0.23.1"
image = { version = "=0.24.9", default-features = false }
qrcode = "=0.14.1"
rqrr = "=0.11.0"
screenshots = "=0.8.10"
serde = { version = "*", features = ["derive"] }
tokio = { version = "*", features = ["rt-multi-thread", "macros", "net"] }
tower-http = { version = "*", features = ["fs"] }
