[package]
name = "shared_mempool"
version = "0.1.0"
edition = "2021"
publish = false

[dependencies]
rand = "0.7"
futures = "0.3"
tokio = { version = "0.2", features = ["rt-threaded", "time", "stream", "sync"] }
anyhow = "1"
