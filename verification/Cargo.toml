[package]
name = "mediafinder"
version = "0.1.0"
edition = "2021"
publish = false

[dependencies]
unicode-normalization = "=0.1.26"
memchr = "=2.8.3"
serde = { version = "=1.0.229", features = ["derive"] }
serde_json = "=1.0.154"
blake3 = { version = "=1.8.7", features = ["pure"] }
image = { version = "0.25", default-features = false, features = ["png"] }
lru = "0.12"
