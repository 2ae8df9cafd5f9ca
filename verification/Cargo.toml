[package]
name = "dig-stun"
version = "0.2.0"
edition = "2021"
publish = false

[dependencies]
ring = "0.17"
thiserror = "1"
tokio = { version = "1", features = ["net", "time", "rt"] }
