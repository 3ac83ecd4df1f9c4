[package]
name = "git_sidecar"
version = "0.1.0"
edition = "2021"
publish = false

[dependencies]
clap = { version = "4", features = ["derive"] }
dunce = "1"
serde = { version = "1", features = ["derive"] }
toml = "*"
