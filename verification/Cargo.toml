[package]
name = "mamba_prefill"
version = "0.1.0"
edition = "2021"
publish = false

[dependencies]
candle-core = "0.9"
candle-nn = "0.9"
serde = { version = "1", features = ["derive"] }
