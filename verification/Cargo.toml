[package]
name = "tileshare"
version = "0.1.0"
edition = "2021"
publish = false

[dependencies]
blake3 = "*"
qoi = "*"
rayon = "*"
image = "*"
axum = "*"
axum-extra = { version = "*", features = ["multipart"] }
tokio = { version = "*", features = ["rt-multi-thread", "macros", "net"] }
serde = { version = "*", features = ["derive"] }
serde_json = "*"
bytes = "*"
chrono = "*"
xcap = "*"
