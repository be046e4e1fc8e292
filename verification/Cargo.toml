[package]
name = "udp_chat"
version = "0.1.0"
edition = "2021"
publish = false

[dependencies]
tokio = { version = "1", features = ["net", "sync", "time", "rt-multi-thread", "macros"] }
rand = "0.8"
