[package]
name = "plexus"
version = "0.1.0"
edition = "2021"
publish = false

[dependencies]
petgraph = "*"
async-lsp = "*"
async-process = "*"
tokio = { version = "1", features = ["rt-multi-thread", "macros", "time"] }
clap = { version = "4", features = ["derive"] }
serde = { version = "1", features = ["derive"] }
serde_json = "1"
anyhow = "1"
