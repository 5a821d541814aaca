[package]
name = "dns_pending"
version = "0.1.0"
edition = "2021"
publish = false

[dependencies]
rand = "0.8"
futures = "0.1"
tokio-core = "0.1"
bytes = "1"
