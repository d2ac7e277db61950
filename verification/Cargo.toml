[package]
name = "asteroid-mq"
version = "0.1.0"
edition = "2021"
publish = false

[dependencies]
bytes = { version = "1", features = ["serde"] }
crossbeam = "0.8"
flume = "0.11"
serde = { version = "1", features = ["derive"] }
tokio = { version = "1", features = ["rt"] }
tracing = "0.1"
