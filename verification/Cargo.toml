[package]
name = "topo"
version = "0.1.0"
edition = "2021"
publish = false

[dependencies]
serde = { version = "1", features = ["derive"] }
serde_json = "1"
toml = "0.8"
regex = "1"
ignore = "0.4"
syntect = { version = "5", default-features = false, features = ["default-fancy"] }
