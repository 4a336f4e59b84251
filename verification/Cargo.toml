[package]
name = "payments_processor"
version = "0.1.0"
edition = "2021"
publish = false

[dependencies]
csv = "1"
tokio = { version = "1", features = ["rt-multi-thread", "macros", "sync"] }
