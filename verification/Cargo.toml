[package]
name = "ferrograph"
version = "0.1.0"
edition = "2021"
publish = false

[dependencies]
anyhow = "=1.0.104"
clap = { version = "=4.6.7", features = ["derive"] }
cozo = { version = "=0.7.6", default-features = false, features = ["storage-sqlite", "rayon"] }
ctrlc = "=3.5.2"
glob = "=0.3.4"
ignore = "=0.4.34"
notify = "=8.2.1"
rmcp = { version = "=3.8.0", features = ["server", "transport-io"] }
serde = { version = "=1.0.229", features = ["derive"] }
serde_json = "=1.0.154"
tokio = { version = "=1.54.1", features = ["rt-multi-thread", "macros", "sync", "io-std"] }
tree-sitter = "=0.27.1"
tree-sitter-rust = "=0.24.2"
