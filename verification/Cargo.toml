[package]
name = "rate_limiter"
version = "0.1.0"
edition = "2021"
publish = false

[dependencies]
anyhow = "1"
axum = "0.7"
chrono = "0.4"
tokio = { version = "1", features = ["macros", "net", "rt-multi-thread", "sync", "time"] }
