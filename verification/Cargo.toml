[package]
name = "ovenauth"
version = "0.1.0"
edition = "2021"
publish = false

[dependencies]
ulid = "*"
chrono = "*"
axum = { version = "*", features = ["ws"] }
tokio = { version = "*", features = ["rt-multi-thread", "macros", "sync", "net", "time"] }
futures-util = "*"

[dev-dependencies]
serde_json = "*"
