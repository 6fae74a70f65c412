[package]
name = "streaming"
version = "0.1.0"
edition = "2021"
publish = false

[dependencies]
ringbuffer = "=0.8.5"
serde = { version = "1", features = ["derive"] }
tokio = { version = "1", features = ["fs", "io-util", "rt", "sync", "macros"] }
