[package]
name = "binance_uni"
version = "0.1.0"
edition = "2021"
publish = false

[dependencies]
primitive-types = "=0.14.0"
serde = { version = "=1.0.229", features = ["derive"] }
reqwest = { version = "=0.13.5", default-features = false, features = ["blocking", "json"] }
clap = { version = "=4.6.7", features = ["derive"] }
