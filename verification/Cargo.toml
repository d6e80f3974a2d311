[package]
name = "ludo"
version = "0.1.0"
edition = "2021"
publish = false

[dependencies]
axum = { version = "0.6", features = ["ws"] }
futures = "0.3"
tokio = { version = "1", features = ["macros", "rt-multi-thread", "sync"] }
