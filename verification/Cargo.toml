[package]
name = "gemmy"
version = "0.1.0"
edition = "2021"
publish = false

[dependencies]
uuid = { version = "*", features = ["v4"] }
tokio = { version = "*", features = ["rt-multi-thread", "macros", "sync", "time", "signal"] }
serde = { version = "*", features = ["derive"] }
dotenv = "*"
tracing = "*"
tracing-subscriber = "*"
tracing-appender = "*"
