[package]
name = "rldeck"
version = "0.1.0"
edition = "2021"
publish = false

[dependencies]
dirs = "=6.0.0"
image = { version = "=0.25.10", default-features = false, features = ["png", "jpeg", "webp", "gif", "bmp"] }
reqwest = { version = "=0.12.28", default-features = false, features = ["rustls-tls"] }
serde = { version = "=1.0.229", features = ["derive"] }
serde_json = "=1.0.154"
sha2 = "=0.10.9"
tokio = { version = "=1.54.1", features = ["rt-multi-thread"] }
zip = { version = "=7.4.0", default-features = false, features = ["deflate"] }
