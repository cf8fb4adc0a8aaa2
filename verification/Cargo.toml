[package]
name = "ips_core"
version = "0.1.0"
edition = "2021"
publish = false

[dependencies]
anyhow = "=1.0.104"
clap = { version = "=4.6.7", features = ["derive"] }
serde = { version = "=1.0.229", features = ["derive"] }
serde_json = "=1.0.151"
spectre = "=0.7.0"
tokio = { version = "=1.53.2", features = ["rt-multi-thread", "macros"] }
toml = "=0.9.8"
