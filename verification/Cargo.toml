[package]
name = "envsync"
version = "0.1.0"
edition = "2021"
publish = false

[dependencies]
anyhow = "1"
clap = { version = "4", features = ["derive"] }
colored = "2"
glob = "0.3"
serde = { version = "1", features = ["derive"] }
toml = "0.8"
