[package]
name = "swap_venue"
version = "0.1.0"
edition = "2021"
publish = false

[dependencies]
near-sdk = { version = "=5.29.1", features = ["unit-testing"] }
near-contract-standards = "=5.29.1"
schemars = "=0.8.22"
serde_json = "=1.0.151"
