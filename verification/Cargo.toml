[package]
name = "hash_ring"
version = "0.1.0"
edition = "2021"
publish = false

[dependencies]
rand = "*"
tokio = { version = "*", features = ["macros", "rt-multi-thread", "io-std", "io-util", "sync", "net"] }
axum = "*"
