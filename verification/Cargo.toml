[package]
name = "codemap"
version = "0.1.0"
edition = "2021"
publish = false

[dependencies]
anyhow = "=1.0.104"
clap = { version = "=4.6.7", features = ["derive"] }
fastembed = { version = "=7.5.0", default-features = false, features = ["ort-load-dynamic", "hf-hub-rustls-tls"] }
serde_json = "=1.0.154"
tree-sitter = "=0.27.1"
tree-sitter-rust = "=0.24.2"
walkdir = "=2.5.0"
