[package]
name = "wire"
version = "0.1.0"
edition = "2021"
publish = false

[dependencies]
petgraph = "*"
syn = { version = "*", features = ["full", "visit", "extra-traits"] }
quote = "*"
serde = { version = "*", features = ["derive"] }
serde_json = "*"
glob = "*"
anyhow = "*"
clap = { version = "*", features = ["derive"] }
