[package]
name = "ffrwd_nut"
version = "0.1.0"
edition = "2021"
publish = false

[dependencies]
serde_json = { version = "1", features = ["raw_value"] }
