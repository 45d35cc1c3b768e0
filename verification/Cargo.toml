[package]
name = "snork"
version = "0.1.0"
edition = "2021"
publish = false

[dependencies]
priority-queue = "1"
rand = { version = "0.8", features = ["small_rng"] }
serde = { version = "1", features = ["derive"] }
serde_json = "1"
