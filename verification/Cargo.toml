[package]
name = "pagerank"
version = "0.1.0"
edition = "2021"
publish = false

[dependencies]
rand = "0.8"
clap = { version = "4", features = ["derive"] }
csv = "1"
serde = { version = "1", features = ["derive"] }
comfy-table = "7"
petgraph = "0.6"
textwrap = "0.16"
