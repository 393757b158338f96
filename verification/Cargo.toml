[package]
name = "rune_core"
version = "0.2.0"
edition = "2021"
publish = false

[dependencies]
ahash = "=0.8.12"
anyhow = "=1.0.104"
cedar-policy = "=3.4.3"
clap = { version = "=4.6.7", features = ["derive"] }
colored = "=3.1.1"
metrics = "0.21"
rayon = "=1.12.0"
serde = { version = "=1.0.229", features = ["derive"] }
serde_json = "=1.0.154"
thiserror = "=1.0.69"
tokio = { version = "=1.54.1", features = ["rt-multi-thread", "macros"] }
toml = "=1.1.8"
