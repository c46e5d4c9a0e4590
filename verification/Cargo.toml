[package]
name = "piton"
version = "0.1.0"
edition = "2021"
publish = false

[dependencies]
tower-lsp = "=0.20.0"
serde_json = "=1.0.154"

[dev-dependencies]
fancy-regex = "*"
