[package]
name = "serde_json_borrow"
version = "0.1.0"
edition = "2021"
publish = false

[dependencies]
serde = "=1.0.229"
serde_json = { version = "=1.0.151", features = ["float_roundtrip"] }
simd-json = "=0.18.1"
halfbrown = "=0.4.0"
