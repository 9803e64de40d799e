[package]
name = "architectural-drift-detector"
version = "0.1.0"
edition = "2021"
publish = false

[dependencies]
clap = { version = "4", features = ["derive"] }
dashmap = "6"
globset = "0.4"
parking_lot = "0.12"
serde = { version = "1", features = ["derive"] }
serde_json = "1"
serde_yaml = "0.9"
thiserror = "2"
tokio = { version = "1", features = ["rt-multi-thread", "sync", "io-std", "macros"] }
tower-lsp = "0.20"
tree-sitter = "0.25"
tree-sitter-typescript = "0.23"
walkdir = "2"
