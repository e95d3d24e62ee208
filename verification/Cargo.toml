[package]
name = "spike_detector"
version = "0.1.0"
edition = "2021"
publish = false

[dependencies]
anyhow = "*"
binance = "*"
tokio = { version = "*", features = ["macros", "rt-multi-thread"] }
