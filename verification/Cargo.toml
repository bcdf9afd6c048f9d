[package]
name = "agg_ticker"
version = "0.1.0"
edition = "2021"
publish = false

[dev-dependencies]
serde = "=1.0.229"
serde_json = "=1.0.154"
