[package]
name = "pubsub-rs"
version = "0.1.0"
edition = "2021"
publish = false

[dependencies]
async-channel = "2"
dashmap = "6"

[dev-dependencies]
futures-lite = "2"
