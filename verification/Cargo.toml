[package]
name = "rvt_partitions"
version = "0.1.0"
edition = "2021"
publish = false

[dependencies]
memchr = "2"
encoding_rs = "0.8"
quick-xml = "0.37"
serde = { version = "1", features = ["derive"] }
serde_json = "1"
anyhow = "1"
