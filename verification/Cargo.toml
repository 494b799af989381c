[package]
name = "txpool"
version = "0.1.0"
edition = "2021"
publish = false

[dependencies]
anyhow = "1"
fuel-core-chain-config = "0.20"
fuel-core-client = "0.20"
fuel-core-types = { version = "0.20", features = ["test-helpers"] }
tokio = { version = "1", features = ["sync", "rt"] }
