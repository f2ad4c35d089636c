[package]
name = "fifo_cache"
version = "0.1.0"
edition = "2021"
publish = false

[dependencies]
ahash = "0.8"
thiserror = "1"
clap = { version = "4", features = ["derive"] }
