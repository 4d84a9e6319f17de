[package]
name = "dist"
version = "0.1.0"
edition = "2021"
publish = false

[dependencies]
anyhow = "*"
rand = "*"
serde = { version = "*", features = ["derive"] }
serde_json = "*"
tokio = { version = "*", features = ["io-std", "io-util", "macros", "rt-multi-thread", "sync", "time"] }
