[package]
name = "rules_rust_tools"
version = "0.1.0"
edition = "2021"
publish = false

[dependencies]
anyhow = "1"
camino = { version = "1", features = ["serde1"] }
clap = { version = "4", features = ["derive"] }
env_logger = "*"
jsonc-parser = { version = "*", features = ["cst", "serde"] }
log = "0.4"
serde = { version = "1", features = ["derive"] }
serde_json = "1"
