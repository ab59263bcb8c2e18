[package]
name = "peripherio"
version = "0.1.0"
edition = "2021"
publish = false

[dependencies]
serde = { version = "=1.0.229", features = ["derive"] }
serde_json = { version = "=1.0.154", features = ["preserve_order"] }
serde_yaml = "=0.9.34"
valico = "=4.0.0"
linked-hash-map = { version = "=0.5.6", features = ["serde_impl"] }
libloading = "=0.9.0"
rmp-serde = "=1.3.1"
clap = "=4.6.7"
toml = "=1.1.8"
