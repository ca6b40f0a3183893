[package]
name = "loadtest"
version = "0.1.0"
edition = "2021"
publish = false

[dependencies]
anyhow = "1"
bytes = "1"
clap = "~4.0"
tokio = { version = "1", features = ["full"] }
