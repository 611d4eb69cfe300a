[package]
name = "adaptive_corpus"
version = "0.1.0"
edition = "2021"
publish = false

[dependencies]
rmp-serde = "=1.3.1"
serde = { version = "=1.0.229", features = ["derive"] }
