[package]
name = "trade_match"
version = "0.1.0"
edition = "2021"
publish = false

[dependencies]
config = "*"
serde = { version = "1", features = ["derive"] }
thiserror = "1"
