[package]
name = "bitcraft_hub"
version = "0.1.0"
edition = "2021"
publish = false

[dependencies]
dashmap = "6"
crossbeam-channel = "0.5"
config = { version = "0.15", default-features = false, features = ["toml"] }
dotenvy = "0.15"
clap = { version = "4", features = ["derive"] }
serde = { version = "1", features = ["derive"] }
serde_json = "1"
toml = "0.8"
serde_yml = "*"
nanoid = "0.4"
