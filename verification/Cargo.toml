[package]
name = "semble"
version = "0.1.0"
edition = "2021"
publish = false

[dependencies]
regex = "1"
tree-sitter = "*"
tree-sitter-rust = "*"
tree-sitter-python = "*"
tree-sitter-javascript = "*"
tree-sitter-typescript = "*"
tree-sitter-go = "*"
tree-sitter-java = "*"
tree-sitter-c = "*"
tree-sitter-cpp = "*"
tree-sitter-kotlin-ng = "*"
tree-sitter-ruby = "*"
tree-sitter-php = "*"
tree-sitter-swift = "*"
clap = { version = "4", features = ["derive"] }
serde = { version = "1", features = ["derive"] }
serde_json = "1"
anyhow = "1"
chrono = "0.4"
dirs = "*"
env_logger = "*"
ignore = "0.4"
model2vec-rs = "*"
ndarray = "*"
