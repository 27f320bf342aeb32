[package]
name = "refjson"
version = "0.1.0"
edition = "2021"
publish = false

[dependencies]
serde_json = "*"
serde = "*"
clap = { version = "*", features = ["derive"] }
anyhow = "*"
