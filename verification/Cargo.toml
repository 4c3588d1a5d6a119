[package]
name = "plank"
version = "0.1.0"
edition = "2021"
publish = false

[dependencies]
atomic-write-file = "*"
camino = "1"
clap = { version = "4", features = ["derive"] }
color-eyre = "0.6"
env_logger = "0.11"
ignore = "0.4"
log = "0.4"
petgraph = "*"
quick-xml = { version = "*", features = ["serialize"] }
regex-lite = "0.1"
serde = { version = "1", features = ["derive"] }
serde_json = "1"
