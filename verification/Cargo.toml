[package]
name = "seekr"
version = "0.1.0"
edition = "2021"
publish = false

[dependencies]
anyhow = "*"
clap = { version = "*", features = ["derive"] }
colored = "*"
dirs = "*"
ignore = "*"
notify = "*"
serde = { version = "*", features = ["derive"] }
serde_json = "*"
syntect = "*"
tantivy = "*"
tracing = "*"
tracing-subscriber = { version = "*", features = ["env-filter"] }
tree-sitter = "*"
tree-sitter-go = "*"
tree-sitter-javascript = "*"
tree-sitter-python = "*"
tree-sitter-rust = "*"
tree-sitter-typescript = "*"
usearch = "*"
