[package]
name = "rustkit_engine"
version = "0.1.0"
edition = "2021"
publish = false

[dependencies]
serde_json = "1.0"
thiserror = "1.0"
url = "2"
tracing = "0.1"
