[package]
name = "pascal_lsp"
version = "0.1.0"
edition = "2021"
publish = false

[dependencies]
globset = "0.4"
lsp-types = "0.95"
serde = { version = "1", features = ["derive"] }
serde_json = "1"
walkdir = "2"
