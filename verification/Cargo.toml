[package]
name = "connect_rust"
version = "0.1.0"
edition = "2021"
publish = false

[dependencies]
rand = "0.8"
serde = { version = "1", features = ["derive"] }
minijinja = "2"
axum = "0.7"
tokio = { version = "1", features = ["rt-multi-thread", "net", "macros"] }
