[package]
name = "reap"
version = "0.1.0"
edition = "2021"
publish = false

[dependencies]
petgraph = "*"
serde_json = "*"
serde = { version = "*", features = ["derive"] }
clap = "*"
