[package]
name = "matching_engine"
version = "0.1.0"
edition = "2021"
publish = false

[dependencies]
crossbeam-channel = "*"
tokio = { version = "*", features = ["net", "io-util", "rt-multi-thread", "macros", "time"] }
